//! The HTTP front door: which requests reach the server.
use crate::bytes::bytes_equal;
use crate::json::ascii_string;
use vstd::prelude::*;
use vstd::string::StringSliceAdditionalSpecFns;
use vstd::utf8::encode_utf8;

verus! {

/// `http://`
pub open spec fn w_http() -> Seq<u8> {
    seq![104u8, 116u8, 116u8, 112u8, 58u8, 47u8, 47u8]
}

fn word_http() -> (res: String)
    ensures
        encode_utf8(res@) == w_http(),
{
    let b: [u8; 7] = [104u8, 116u8, 116u8, 112u8, 58u8, 47u8, 47u8];
    assert(b@ =~= w_http());
    ascii_string(b.as_slice())
}

/// `Bearer `
pub open spec fn w_bearer() -> Seq<u8> {
    seq![66u8, 101u8, 97u8, 114u8, 101u8, 114u8, 32u8]
}

fn word_bearer() -> (res: String)
    ensures
        encode_utf8(res@) == w_bearer(),
{
    let b: [u8; 7] = [66u8, 101u8, 97u8, 114u8, 101u8, 114u8, 32u8];
    assert(b@ =~= w_bearer());
    ascii_string(b.as_slice())
}


/// What the door answers a request.
#[derive(Clone, Copy, Debug, PartialEq, Eq)]
pub enum Verdict {
    Allow,
    Forbidden,
    Unauthorized,
}

/// A header's value as text, if it is visible ASCII.
pub open spec fn header_text(v: Option<String>) -> Option<Seq<u8>> {
    match v {
        Some(s) => Some(encode_utf8(s@)),
        None => None,
    }
}

/// The door's rule: exactly one `Host` header naming the server's address;
/// at most one `Origin`, and if there is one, the server's own `http://`
/// origin; and when a token is configured, the first `Authorization`
/// header is `Bearer` and the token.
pub open spec fn verdict(
    hosts: Seq<Option<String>>,
    origins: Seq<Option<String>>,
    authorizations: Seq<Option<String>>,
    authority: Seq<u8>,
    token: Option<Seq<u8>>,
) -> Verdict {
    if hosts.len() == 0 || header_text(hosts[0]) != Some(authority) {
        Verdict::Forbidden
    } else if hosts.len() != 1 || origins.len() > 1 {
        Verdict::Forbidden
    } else if origins.len() == 1 && header_text(origins[0]) != Some(w_http() + authority) {
        Verdict::Forbidden
    } else if token matches Some(t) && (authorizations.len() == 0 || header_text(authorizations[0])
        != Some(w_bearer() + t)) {
        Verdict::Unauthorized
    } else {
        Verdict::Allow
    }
}

fn text_is(v: &Option<String>, want: &[u8]) -> (res: bool)
    ensures
        res == (header_text(*v) == Some(want@)),
{
    match v {
        Some(s) => bytes_equal(s.as_str().as_bytes(), want),
        None => false,
    }
}

fn joined(a: &[u8], b: &[u8]) -> (res: Vec<u8>)
    ensures
        res@ == a@ + b@,
{
    let mut v: Vec<u8> = Vec::new();
    crate::bytes::append_bytes(&mut v, a);
    crate::bytes::append_bytes(&mut v, b);
    assert(v@ =~= a@ + b@);
    v
}

/// Decides whether a request with these headers may reach the server:
/// each header's values in order (`None` for one that is not visible
/// ASCII), the address the server listens on, and its token, if any.
pub fn check_request(
    hosts: &Vec<Option<String>>,
    origins: &Vec<Option<String>>,
    authorizations: &Vec<Option<String>>,
    authority: &str,
    token: Option<&str>,
) -> (res: Verdict)
    ensures
        res == verdict(
            hosts@,
            origins@,
            authorizations@,
            authority.spec_bytes(),
            match token {
                Some(t) => Some(t.spec_bytes()),
                None => None,
            },
        ),
{
    let auth = authority.as_bytes();
    if hosts.len() == 0 || !text_is(&hosts[0], auth) {
        return Verdict::Forbidden;
    }
    if hosts.len() != 1 || origins.len() > 1 {
        return Verdict::Forbidden;
    }
    if origins.len() == 1 {
        let http = word_http();
        let want = joined(http.as_str().as_bytes(), auth);
        if !text_is(&origins[0], want.as_slice()) {
            return Verdict::Forbidden;
        }
    }
    match token {
        Some(t) => {
            let bearer = word_bearer();
            let want = joined(bearer.as_str().as_bytes(), t.as_bytes());
            if authorizations.len() == 0 || !text_is(&authorizations[0], want.as_slice()) {
                return Verdict::Unauthorized;
            }
        },
        None => {},
    }
    Verdict::Allow
}

} // verus!
