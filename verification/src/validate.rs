//! The validation decorator: intercepts a response before it reaches
//! the caller, has the supporting signature and key records checked,
//! and releases the answer only when the chain of trust holds. The
//! cryptographic verifier and the fetching of supporting records are
//! collaborators; their findings arrive here as values, and the
//! decision logic below is verified for every possible finding.
//!
//! A failed verification withholds the response entirely: the caller
//! receives a validation failure carrying no records. An unsigned zone
//! passes through unmodified. The chain of trust is walked upward one
//! delegation at a time under a mandatory depth bound, so a malicious
//! delegation cycle cannot keep the walk alive forever.

use vstd::prelude::*;

use crate::error::DnsError;
use crate::message::Message;

verus! {

/// What the cryptographic verifier reported for a response's records.
#[derive(Clone, Copy, Debug, PartialEq, Eq, Structural)]
pub enum Verdict {
    /// Signatures verified against the chain up to a trust anchor.
    Secure,
    /// A signature or key did not verify; the data must be withheld.
    Bogus,
    /// The zone is unsigned or opts out; data passes through unchecked.
    Insecure,
}

/// One upward step of the chain-of-trust walk, as the fetched key and
/// delegation records show it.
#[derive(Clone, Copy, Debug, PartialEq, Eq, Structural)]
pub enum ChainStep {
    /// This level's key is a configured trust anchor: the walk ends,
    /// trusted.
    Anchor,
    /// This level is signed by the next level up: the walk continues.
    Delegate,
    /// A signature or digest at this level does not verify.
    Broken,
}

/// Where a chain walk ends: the depth of the anchor that grounded it,
/// or the validation failure. A walk that runs past `max_depth`
/// delegations, or off the end of the fetched levels, fails: an
/// unterminated chain is untrusted by design.
pub open spec fn spec_walk(steps: Seq<ChainStep>, max_depth: int) -> Result<int, DnsError>
    decreases max_depth,
{
    if max_depth <= 0 || steps.len() == 0 {
        Err(DnsError::Validation)
    } else {
        match steps[0] {
            ChainStep::Anchor => Ok(0),
            ChainStep::Broken => Err(DnsError::Validation),
            ChainStep::Delegate => match spec_walk(
                steps.subrange(1, steps.len() as int),
                max_depth - 1,
            ) {
                Ok(d) => Ok(d + 1),
                Err(e) => Err(e),
            },
        }
    }
}

/// Walks the chain of trust upward: each level either grounds at a
/// trust anchor, delegates to the next level, or is broken. Returns
/// the anchor's depth exactly when the walk reaches one within the
/// depth bound; every other chain — broken, cyclic, or too deep —
/// fails with a validation error.
pub fn walk_chain(steps: &Vec<ChainStep>, max_depth: usize) -> (r: Result<usize, DnsError>)
    ensures
        match spec_walk(steps@, max_depth as int) {
            Ok(d) => r matches Ok(got) && got == d,
            Err(e) => r == Result::<usize, DnsError>::Err(e),
        },
{
    let n = steps.len();
    let mut i: usize = 0;
    proof {
        assert(steps@.subrange(0, n as int) =~= steps@);
    }
    loop
        invariant
            0 <= i,
            i <= n,
            i <= max_depth,
            n == steps@.len(),
            ({
                let tail = steps@.subrange(i as int, n as int);
                match spec_walk(tail, max_depth - i) {
                    Ok(d) => spec_walk(steps@, max_depth as int) == Result::<
                        int,
                        DnsError,
                    >::Ok(d + i),
                    Err(e) => spec_walk(steps@, max_depth as int) == Result::<
                        int,
                        DnsError,
                    >::Err(e),
                }
            }),
        decreases n - i,
    {
        let ghost tail = steps@.subrange(i as int, n as int);
        if i >= max_depth || i >= n {
            return Err(DnsError::Validation);
        }
        match steps[i] {
            ChainStep::Anchor => {
                proof {
                    assert(tail[0] == ChainStep::Anchor);
                }
                return Ok(i);
            },
            ChainStep::Broken => {
                proof {
                    assert(tail[0] == ChainStep::Broken);
                }
                return Err(DnsError::Validation);
            },
            ChainStep::Delegate => {
                proof {
                    assert(tail[0] == ChainStep::Delegate);
                    assert(tail.subrange(1, tail.len() as int) =~= steps@.subrange(
                        i + 1,
                        n as int,
                    ));
                }
                i = i + 1;
            },
        }
    }
}

/// Releases a response to the caller exactly when validation allows:
/// a secure or insecure (unsigned zone) verdict passes the message
/// through unmodified, a bogus verdict withholds it — the caller sees
/// the validation failure and never the underlying records.
pub fn release(resp: Message, verdict: Verdict) -> (r: Result<Message, DnsError>)
    ensures
        verdict == Verdict::Bogus ==> r == Result::<Message, DnsError>::Err(DnsError::Validation),
        verdict != Verdict::Bogus ==> (r matches Ok(m) && m@ == resp@),
{
    match verdict {
        Verdict::Bogus => Err(DnsError::Validation),
        _ => Ok(resp),
    }
}

/// The verdict a fetched chain supports: grounded within the depth
/// bound means secure; a missing chain for an unsigned zone means
/// insecure; anything else is bogus.
pub open spec fn spec_verdict_of_chain(
    steps: Seq<ChainStep>,
    max_depth: int,
    zone_signed: bool,
) -> Verdict {
    if !zone_signed {
        Verdict::Insecure
    } else if spec_walk(steps, max_depth) is Ok {
        Verdict::Secure
    } else {
        Verdict::Bogus
    }
}

/// The whole validation decision for one response: walks the fetched
/// chain (when the zone is signed at all) and releases or withholds
/// the response accordingly. The answer records reach the caller if
/// and only if the zone is unsigned or the chain grounds at a trust
/// anchor within the depth bound.
pub fn validate(resp: Message, steps: &Vec<ChainStep>, max_depth: usize, zone_signed: bool) -> (r:
    Result<Message, DnsError>)
    ensures
        ({
            let v = spec_verdict_of_chain(steps@, max_depth as int, zone_signed);
            &&& v == Verdict::Bogus ==> r == Result::<Message, DnsError>::Err(DnsError::Validation)
            &&& v != Verdict::Bogus ==> (r matches Ok(m) && m@ == resp@)
        }),
{
    if !zone_signed {
        return release(resp, Verdict::Insecure);
    }
    match walk_chain(steps, max_depth) {
        Ok(_depth) => release(resp, Verdict::Secure),
        Err(_) => release(resp, Verdict::Bogus),
    }
}

} // verus!
