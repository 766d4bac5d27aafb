//! The content resolver's decision logic.
//!
//! A request path is mapped to an on-disk target in two attempts: the
//! configured serving prefix is stripped and the remainder is tried as a
//! literal path; if the literal lookup misses, exactly one retry is made
//! with `.html` appended. The filesystem lookups themselves are the
//! caller's; every decision between them is made — and pinned down — here.
use vstd::prelude::*;
use vstd::string::*;

verus! {

/// Whether a string parses as a request target. The result of
/// [`axum::http::Uri`]'s parser on given characters, named but not
/// written out here.
pub uninterp spec fn uri_parses(s: Seq<char>) -> bool;

/// Relies on `axum::http::Uri::from_str`: whether a path string parses as
/// a request target depends on its characters alone.
#[verifier::external_body]
fn is_valid_target(s: &str) -> (r: bool)
    ensures
        r == uri_parses(s@),
{
    s.parse::<axum::http::Uri>().is_ok()
}

/// Why a request could not be resolved to servable content.
#[derive(Clone, Copy, PartialEq, Eq, Structural, Debug)]
pub enum ResolveError {
    /// The request path does not begin with the configured serving prefix.
    PrefixMismatch,
    /// A computed target fails to parse as a request target.
    InvalidPath,
    /// The serving collaborator reported an underlying failure.
    ServeFailure,
}

/// What one filesystem lookup by the serving collaborator reported.
#[derive(Debug, PartialEq, Eq)]
pub enum ServeOutcome {
    /// The target exists; its content, unmodified.
    Found(Vec<u8>),
    /// The target does not exist.
    Missing,
    /// The lookup itself failed.
    Failure,
}

/// The final answer for one request.
#[derive(Debug, PartialEq, Eq)]
pub enum Resolution {
    /// Content to serve, exactly as the collaborator returned it.
    Served(Vec<u8>),
    /// Neither the literal target nor its `.html` fallback exists.
    Absent,
    /// The request failed; never a crash, never a silent pass-through.
    Failed(ResolveError),
}

/// What follows the literal attempt: either the request is settled, or
/// the `.html` fallback target must be looked up.
#[derive(Debug, PartialEq, Eq)]
pub enum LiteralStep {
    Settled(Resolution),
    Fallback(String),
}

/// Whether `request` lies under the serving prefix `prefix`: it starts
/// with `prefix`, and what follows is empty or begins at a `/` separator.
pub open spec fn is_under(request: Seq<char>, prefix: Seq<char>) -> bool {
    &&& prefix.len() <= request.len()
    &&& request.subrange(0, prefix.len() as int) == prefix
    &&& (request.len() == prefix.len() || request[prefix.len() as int] == '/')
}

/// The literal target for a request under the prefix: the remainder after
/// the prefix, re-anchored at the separator — `"/"` itself when the
/// request is exactly the prefix.
pub open spec fn stripped_target(request: Seq<char>, prefix: Seq<char>) -> Seq<char> {
    if request.len() == prefix.len() {
        "/"@
    } else {
        request.skip(prefix.len() as int)
    }
}

/// The retry target: the literal target with `.html` appended.
pub open spec fn fallback_of(target: Seq<char>) -> Seq<char> {
    target + ".html"@
}

/// Computes the literal target for a request. Fails with `PrefixMismatch`
/// exactly when the request does not lie under the prefix, with
/// `InvalidPath` exactly when the stripped target does not parse as a
/// request target, and succeeds on every other input.
pub fn literal_target(request: &str, prefix: &str) -> (r: Result<String, ResolveError>)
    ensures
        is_under(request@, prefix@) && uri_parses(stripped_target(request@, prefix@)) ==> r is Ok,
        r matches Ok(t) ==> is_under(request@, prefix@) && uri_parses(
            stripped_target(request@, prefix@),
        ) && t@ == stripped_target(request@, prefix@),
        r == Err::<String, ResolveError>(ResolveError::PrefixMismatch) <==> !is_under(
            request@,
            prefix@,
        ),
        r == Err::<String, ResolveError>(ResolveError::InvalidPath) <==> is_under(
            request@,
            prefix@,
        ) && !uri_parses(stripped_target(request@, prefix@)),
{
    let plen = prefix.unicode_len();
    let rlen = request.unicode_len();
    if plen > rlen {
        return Err(ResolveError::PrefixMismatch);
    }
    let mut i: usize = 0;
    while i < plen
        invariant
            0 <= i <= plen,
            plen == prefix@.len(),
            rlen == request@.len(),
            plen <= rlen,
            request@.subrange(0, i as int) == prefix@.subrange(0, i as int),
        decreases plen - i,
    {
        let rc = request.get_char(i);
        let pc = prefix.get_char(i);
        if rc != pc {
            proof {
                if is_under(request@, prefix@) {
                    assert(request@.subrange(0, plen as int)[i as int] == prefix@[i as int]);
                }
            }
            return Err(ResolveError::PrefixMismatch);
        }
        proof {
            assert(request@.subrange(0, i as int + 1) =~= request@.subrange(0, i as int).push(
                request@[i as int],
            ));
            assert(prefix@.subrange(0, i as int + 1) =~= prefix@.subrange(0, i as int).push(
                prefix@[i as int],
            ));
        }
        i += 1;
    }
    proof {
        assert(prefix@.subrange(0, plen as int) =~= prefix@);
    }
    if rlen > plen {
        if request.get_char(plen) != '/' {
            return Err(ResolveError::PrefixMismatch);
        }
        let rem = request.substring_char(plen, rlen);
        let t = rem.to_owned();
        proof {
            assert(t@ =~= request@.skip(plen as int));
        }
        if is_valid_target(t.as_str()) {
            Ok(t)
        } else {
            Err(ResolveError::InvalidPath)
        }
    } else {
        let t: String = "/".to_owned();
        if is_valid_target(t.as_str()) {
            Ok(t)
        } else {
            Err(ResolveError::InvalidPath)
        }
    }
}

/// Decides what follows the literal attempt. Found content settles the
/// request with that content unmodified; a lookup failure settles it as a
/// serving failure; a miss yields exactly one retry, against the `.html`
/// fallback target — unless that target does not parse, which settles the
/// request as an invalid path.
pub fn after_literal(target: &str, outcome: ServeOutcome) -> (r: LiteralStep)
    ensures
        outcome matches ServeOutcome::Found(c) ==> r == LiteralStep::Settled(
            Resolution::Served(c),
        ),
        outcome is Failure ==> r == LiteralStep::Settled(
            Resolution::Failed(ResolveError::ServeFailure),
        ),
        outcome is Missing && uri_parses(fallback_of(target@)) ==> (r matches LiteralStep::Fallback(
            t,
        ) && t@ == fallback_of(target@)),
        outcome is Missing && !uri_parses(fallback_of(target@)) ==> r == LiteralStep::Settled(
            Resolution::Failed(ResolveError::InvalidPath),
        ),
{
    match outcome {
        ServeOutcome::Found(content) => LiteralStep::Settled(Resolution::Served(content)),
        ServeOutcome::Failure => LiteralStep::Settled(
            Resolution::Failed(ResolveError::ServeFailure),
        ),
        ServeOutcome::Missing => {
            let mut fallback = target.to_owned();
            fallback.append(".html");
            if is_valid_target(fallback.as_str()) {
                LiteralStep::Fallback(fallback)
            } else {
                LiteralStep::Settled(Resolution::Failed(ResolveError::InvalidPath))
            }
        },
    }
}

/// Settles the request from the fallback attempt's outcome: whatever the
/// second attempt yields is final — found content is served unmodified, a
/// miss is a genuine not-found, a lookup failure is a serving failure.
pub fn after_fallback(outcome: ServeOutcome) -> (r: Resolution)
    ensures
        outcome matches ServeOutcome::Found(c) ==> r == Resolution::Served(c),
        outcome is Missing ==> r == Resolution::Absent,
        outcome is Failure ==> r == Resolution::Failed(ResolveError::ServeFailure),
{
    match outcome {
        ServeOutcome::Found(content) => Resolution::Served(content),
        ServeOutcome::Missing => Resolution::Absent,
        ServeOutcome::Failure => Resolution::Failed(ResolveError::ServeFailure),
    }
}

} // verus!
