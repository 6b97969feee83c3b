//! The retry decorator: wraps the request/response contract and
//! re-issues a request on transient failures, up to a fixed attempt
//! cap. Non-retryable failures — malformed data, rejected queries,
//! failed validation — surface immediately without consuming attempts.
//!
//! The decorator's decision logic is pure: the wrapped service's
//! outcomes arrive as values, and the driver below is verified for
//! every possible outcome sequence. The surrounding event loop
//! performs each attempt; it must give every attempt a fresh
//! transaction id (a reused id could still match a straggler response
//! of an earlier attempt) and a fresh timeout window.

use vstd::prelude::*;

use crate::error::DnsError;
use crate::message::Message;
use crate::message::MessageV;

verus! {

/// What one attempt through the wrapped contract produced.
pub enum Attempt {
    /// The request resolved with this response.
    Success(Message),
    /// The request failed with this typed failure.
    Failure(DnsError),
}

/// Mathematical image of an attempt outcome.
pub enum AttemptV {
    /// The request resolved with this response.
    Success(MessageV),
    /// The request failed with this typed failure.
    Failure(DnsError),
}

impl View for Attempt {
    type V = AttemptV;

    open spec fn view(&self) -> AttemptV {
        match self {
            Attempt::Success(m) => AttemptV::Success(m@),
            Attempt::Failure(e) => AttemptV::Failure(*e),
        }
    }
}

/// What driving one request against a sequence of attempt outcomes
/// yields: the surfaced result and how many attempts were issued. The
/// first success or non-retryable failure stops the run; otherwise
/// retryable failures are absorbed until the cap is exhausted, and the
/// last failure surfaces.
pub open spec fn spec_drive(os: Seq<AttemptV>, cap: int) -> (Result<MessageV, DnsError>, int)
    recommends
        1 <= cap <= os.len(),
    decreases cap,
{
    match os[0] {
        AttemptV::Success(m) => (Ok(m), 1),
        AttemptV::Failure(e) => if cap <= 1 || !e.spec_is_retryable() {
            (Err(e), 1)
        } else {
            let (r, n) = spec_drive(os.subrange(1, os.len() as int), cap - 1);
            (r, n + 1)
        },
    }
}

/// Drives one request through the wrapped contract, consuming one
/// outcome per attempt, retrying exactly the retryable failures and at
/// most `cap` attempts in all. Returns the surfaced result and the
/// number of attempts issued — precisely what [`spec_drive`] says.
pub fn drive(outcomes: Vec<Attempt>, cap: usize) -> (r: (Result<Message, DnsError>, usize))
    requires
        1 <= cap <= outcomes@.len(),
    ensures
        ({
            let (sr, sn) = spec_drive(outcomes@.map_values(|a: Attempt| a@), cap as int);
            &&& r.1 == sn
            &&& (r.0 matches Ok(m) && sr matches Ok(mv) && m@ == mv) || (r.0 matches Err(e) && sr
                matches Err(ev) && e == ev)
        }),
{
    let ghost origv = outcomes@.map_values(|a: Attempt| a@);
    let mut work = outcomes;
    let mut attempts: usize = 0;
    proof {
        assert(origv.subrange(0, origv.len() as int) =~= origv);
    }
    #[verifier::loop_isolation(false)]
    loop
        invariant
            0 <= attempts < cap,
            cap <= origv.len(),
            work@.map_values(|a: Attempt| a@) =~= origv.subrange(
                attempts as int,
                origv.len() as int,
            ),
            ({
                let (r0, n0) = spec_drive(
                    origv.subrange(attempts as int, origv.len() as int),
                    cap - attempts,
                );
                spec_drive(origv, cap as int) == (r0, n0 + attempts)
            }),
        decreases cap - attempts,
    {
        let ghost curv = work@.map_values(|a: Attempt| a@);
        let ghost rest = work@.subrange(1, work@.len() as int);
        let a = work.remove(0);
        proof {
            assert(work@ == rest);
            assert(work@.map_values(|x: Attempt| x@) =~= curv.subrange(1, curv.len() as int));
            assert(a@ == curv[0]);
        }
        attempts = attempts + 1;
        match a {
            Attempt::Success(m) => {
                return (Ok(m), attempts);
            },
            Attempt::Failure(e) => {
                if !e.is_retryable() || attempts == cap {
                    return (Err(e), attempts);
                }
            },
        }
        proof {
            assert(work@.map_values(|x: Attempt| x@) =~= origv.subrange(
                attempts as int,
                origv.len() as int,
            ));
        }
    }
}

/// The retry bound: against a service that fails retryably on every
/// attempt, the decorator issues exactly `cap` attempts and then
/// surfaces the last failure — never one attempt more.
pub proof fn theorem_retry_bound(os: Seq<AttemptV>, cap: int)
    requires
        1 <= cap <= os.len(),
        forall|i: int|
            0 <= i < cap ==> (#[trigger] os[i]) is Failure
                && os[i]->Failure_0.spec_is_retryable(),
    ensures
        spec_drive(os, cap).1 == cap,
        spec_drive(os, cap).0 == Result::<MessageV, DnsError>::Err(os[cap - 1]->Failure_0),
    decreases cap,
{
    if cap > 1 {
        let tail = os.subrange(1, os.len() as int);
        theorem_retry_bound(tail, cap - 1);
        assert(tail[cap - 2] == os[cap - 1]);
    }
}

} // verus!
