//! Where and how governed payloads are handed on: the destination's address
//! and what its answer means.

use crate::text;
use vstd::prelude::*;
use vstd::string::*;

verus! {

/// Why a payload was not handed on.
#[derive(Debug)]
pub enum ForwardError {
    /// The endpoint is neither `http://` nor `https://`.
    UnsupportedScheme(String),
    /// The request could not be built.
    Request(String),
    /// The destination could not be reached.
    Send(String),
    /// The destination answered with this status.
    Status(u16),
}

/// Path of the logs service below an endpoint.
pub const LOGS_PATH: &'static str = "/v1/logs";

/// Whether an endpoint has a scheme that can be forwarded to.
pub open spec fn forwardable(endpoint: Seq<char>) -> bool {
    "http://"@.is_prefix_of(endpoint) || "https://"@.is_prefix_of(endpoint)
}

/// Text without the slashes at its end.
pub open spec fn unslashed(s: Seq<char>) -> Seq<char>
    decreases s.len(),
{
    if s.len() > 0 && s.last() == '/' {
        unslashed(s.drop_last())
    } else {
        s
    }
}

/// The characters of a text.
fn chars_of(s: &str) -> (r: Vec<char>)
    ensures
        r@ == s@,
{
    broadcast use vstd::string::axiom_spec_iter;

    let mut out: Vec<char> = Vec::new();
    for c in it: s.chars()
        invariant
            it.seq() == s@,
            out@ == it.seq().take(it.index()),
    {
        proof {
            assert(s@.take(it.index() + 1) =~= s@.take(it.index()).push(c));
        }
        out.push(c);
    }
    assert(s@.take(s@.len() as int) =~= s@);
    out
}

/// The URL that logs are posted to, below an endpoint.
pub fn export_url(endpoint: &str) -> (r: Result<String, ForwardError>)
    ensures
        if forwardable(endpoint@) {
            r matches Ok(url) && url@ == unslashed(endpoint@) + LOGS_PATH@
        } else {
            r matches Err(ForwardError::UnsupportedScheme(e)) && e@ == endpoint@
        },
{
    let plain: bool = text::strip_prefix(endpoint, "http://").is_some();
    let secure: bool = text::strip_prefix(endpoint, "https://").is_some();
    proof {
        assert(forall|p: Seq<char>, rest: Seq<char>| endpoint@ == p + rest
            ==> #[trigger] p.is_prefix_of(p + rest));
    }
    if !plain && !secure {
        return Err(ForwardError::UnsupportedScheme(endpoint.to_owned()));
    }
    let mut chars = chars_of(endpoint);
    while chars.len() > 0 && chars[chars.len() - 1] == '/'
        invariant
            unslashed(chars@) == unslashed(endpoint@),
        decreases chars@.len(),
    {
        proof {
            assert(chars@.last() == '/');
        }
        let _ = chars.pop();
    }
    let mut url = String::new();
    let mut i: usize = 0;
    while i < chars.len()
        invariant
            i <= chars@.len(),
            url@ == chars@.take(i as int),
        decreases chars@.len() - i,
    {
        proof {
            assert(chars@.take(i + 1) =~= chars@.take(i as int).push(chars@[i as int]));
        }
        url.push(chars[i]);
        i = i + 1;
    }
    assert(chars@.take(i as int) =~= chars@);
    url.append(LOGS_PATH);
    Ok(url)
}

/// What a status says: a payload was taken where it is one of 200 to 299.
pub fn check_status(status: u16) -> (r: Result<(), ForwardError>)
    ensures
        if 200 <= status <= 299 {
            r is Ok
        } else {
            r == Err::<(), ForwardError>(ForwardError::Status(status))
        },
{
    if 200 <= status && status <= 299 {
        Ok(())
    } else {
        Err(ForwardError::Status(status))
    }
}

/// What an endpoint says of slashes does not matter: with or without one at
/// the end it is the same URL.
pub proof fn law_trailing_slash_is_ignored(endpoint: Seq<char>)
    ensures
        unslashed(endpoint.push('/')) == unslashed(endpoint),
{
    assert(endpoint.push('/').drop_last() =~= endpoint);
}

/// The endpoint that is used starts as the given one does, has no slash at its
/// end, and only slashes were taken off.
pub proof fn law_only_slashes_are_taken_off(endpoint: Seq<char>)
    ensures
        unslashed(endpoint).is_prefix_of(endpoint),
        unslashed(endpoint).len() > 0 ==> unslashed(endpoint).last() != '/',
        forall|i: int|
            unslashed(endpoint).len() <= i < endpoint.len() ==> #[trigger] endpoint[i] == '/',
    decreases endpoint.len(),
{
    if endpoint.len() > 0 && endpoint.last() == '/' {
        law_only_slashes_are_taken_off(endpoint.drop_last());
        assert forall|i: int| unslashed(endpoint).len() <= i < endpoint.len() implies #[trigger] endpoint[i]
            == '/' by {
            if i < endpoint.len() - 1 {
                assert(endpoint.drop_last()[i] == '/');
            }
        }
    }
}

/// What can be forwarded to: everything behind `http://` or `https://`, and
/// nothing else. Logs go to `/v1/logs` below it.
pub proof fn law_http_and_https_are_forwarded_to(rest: Seq<char>, endpoint: Seq<char>)
    ensures
        forwardable("http://"@ + rest),
        forwardable("https://"@ + rest),
        forwardable(endpoint) ==> endpoint.take(7) == "http://"@ || endpoint.take(8) == "https://"@,
        LOGS_PATH@ == "/v1/logs"@,
{
    reveal_strlit("http://");
    reveal_strlit("https://");
    assert("http://"@.is_prefix_of("http://"@ + rest)) by {
        assert(("http://"@ + rest).subrange(0, 7) =~= "http://"@);
    }
    assert("https://"@.is_prefix_of("https://"@ + rest)) by {
        assert(("https://"@ + rest).subrange(0, 8) =~= "https://"@);
    }
    if "http://"@.is_prefix_of(endpoint) {
        assert(endpoint.take(7) =~= "http://"@);
    }
    if "https://"@.is_prefix_of(endpoint) {
        assert(endpoint.take(8) =~= "https://"@);
    }
}

} // verus!
