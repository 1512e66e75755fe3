//! What the clients of web services have in common.

use vstd::prelude::*;

use crate::text;

verus! {

/// The standard base64 encoding, with padding, of a text's UTF-8 bytes.
pub uninterp spec fn base64_text(s: Seq<char>) -> Seq<char>;

/// `base64::Engine::encode` of `base64::engine::general_purpose::STANDARD`: the
/// encoding of a text, named by `base64_text`.
#[verifier::external_body]
fn encode_base64(s: &str) -> (r: String)
    ensures
        r@ == base64_text(s@),
{
    base64::Engine::encode(&base64::engine::general_purpose::STANDARD, s)
}

/// The credentials of basic authentication.
pub open spec fn credentials(user: Seq<char>, secret: Seq<char>) -> Seq<char> {
    base64_text(user + ":"@ + secret)
}

/// The credentials of basic authentication.
pub fn basic_auth(user: &str, secret: &str) -> (r: String)
    ensures
        r@ == credentials(user@, secret@),
{
    let mut plain = user.to_owned();
    plain.append(":");
    plain.append(secret);
    encode_base64(plain.as_str())
}

/// The header that carries the credentials.
pub fn authorization(auth: &str) -> (r: String)
    ensures
        r@ == "Basic "@ + auth@,
{
    let mut out = "Basic ".to_owned();
    out.append(auth);
    out
}

/// A status that says that the request was served.
pub open spec fn is_success(status: u16) -> bool {
    200 <= status < 300
}

/// Whether the request was served.
pub fn succeeded(status: u16) -> (r: bool)
    ensures
        r == is_success(status),
{
    200 <= status && status < 300
}

/// What stands for a body that could not be read.
pub open spec fn body_text(body: Option<String>) -> Seq<char> {
    match body {
        Some(b) => b@,
        None => "<no body>"@,
    }
}

/// The body of a response, or what stands for one that could not be read.
pub fn body_or_none(body: Option<String>) -> (r: String)
    ensures
        r@ == body_text(body),
{
    match body {
        Some(b) => b,
        None => "<no body>".to_owned(),
    }
}

/// A request was served if the status is two hundred or a little more.
pub proof fn law_two_hundreds_are_success(status: u16)
    ensures
        is_success(status) <==> status / 100 == 2,
{
}

/// The credentials are the encoding of the user, a colon and the secret.
pub proof fn law_credentials_name_user_and_secret(
    plain: Seq<char>,
    user: Seq<char>,
    secret: Seq<char>,
)
    requires
        plain.len() == user.len() + 1 + secret.len(),
        plain.take(user.len() as int) == user,
        plain[user.len() as int] == ':',
        plain.skip(user.len() as int + 1) == secret,
    ensures
        credentials(user, secret) == base64_text(plain),
{
    reveal_strlit(":");
    let n = user.len() as int;
    assert(plain =~= plain.take(n) + seq![':'] + plain.skip(n + 1));
    assert(plain =~= user + ":"@ + secret);
}

} // verus!
