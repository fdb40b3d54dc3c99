//! User-facing API shapes: token exchange, the chat service's response
//! envelope, and log paging requests.

use base64::Engine;
use rand::Rng;
use vstd::prelude::*;

verus! {

/// The query that starts a token exchange.
pub struct TokenQuery {
    pub code: String,
    pub redirect_uri: String,
}

/// The answer to a successful token exchange.
pub struct TokenResponse {
    pub token: AccessToken,
}

/// The service's own application secret.
#[derive(Clone)]
pub struct ClientSecret(pub String);

/// An error body the chat service returns.
#[derive(Debug)]
pub struct Error {
    pub status: u16,
    pub message: String,
}

/// The chat service's response envelope: the payload, or an error body.
#[derive(Debug)]
pub enum Response<T> {
    Success(T),
    Error(Error),
}

impl<T> Response<T> {
    /// Apply `f` to a successful payload, keeping an error unchanged.
    pub fn map<U, F: FnOnce(T) -> U>(self, f: F) -> (r: Response<U>)
        requires
            forall|v: T| #[trigger] f.requires((v,)),
        ensures
            match self {
                Response::Success(v) => r matches Response::Success(u) && f.ensures((v,), u),
                Response::Error(e) => r matches Response::Error(e2) && e2.status == e.status
                    && e2.message == e.message,
            },
    {
        match self {
            Response::Success(v) => Response::Success(f(v)),
            Response::Error(e) => Response::Error(e),
        }
    }

    /// The payload, or the error body as this library's error value.
    pub fn into_result(self) -> (r: Result<T, Error>)
        ensures
            match self {
                Response::Success(v) => r matches Ok(u) && u == v,
                Response::Error(e) => r matches Err(e2) && e2.status == e.status && e2.message
                    == e.message,
            },
    {
        match self {
            Response::Success(v) => Ok(v),
            Response::Error(e) => Err(e),
        }
    }
}

/// A granted authorization: tokens, lifetime and scopes.
#[derive(Debug)]
pub struct Authorization {
    pub access_token: String,
    pub refresh_token: String,
    pub expires_in: usize,
    pub token_type: String,
    pub scope: Vec<String>,
}

/// The chat service puts response data in an array under one key.
#[derive(Debug)]
pub struct Data<T> {
    pub data: Vec<T>,
}

/// A user record as the chat service describes one.
#[derive(Debug)]
pub struct GetUser {
    pub broadcaster_type: String,
    pub description: String,
    pub display_name: String,
    pub id: String,
    pub login: String,
    pub offline_image_url: String,
    pub profile_image_url: String,
    pub user_type: String,
    pub view_count: i64,
    pub email: String,
    pub created_at: String,
}

/// A paged request for one channel's logs.
pub struct ChannelLogsQuery {
    pub chatter: Option<String>,
    pub pattern: Option<String>,
    pub cursor: Option<String>,
    pub page_size: Option<u32>,
}

/// One page of log entries and the cursor for the next.
pub struct ChannelsResponse<T> {
    pub messages: Vec<T>,
    pub cursor: Option<String>,
}

/// A request to generate text from a model.
pub struct ModelGenerateTextQuery {
    pub query: String,
    pub page: usize,
}

/// The number of random characters in a fresh API token.
pub const TOKEN_CHARS: usize = 30;

/// Relies on rand's `thread_rng` with the `Alphanumeric` distribution:
/// thirty alphanumeric characters, each one byte; which ones come out
/// cannot be promised.
#[verifier::external_body]
fn random_alphanumeric_token() -> (r: String)
    ensures
        r@.len() == TOKEN_CHARS as int,
{
    rand::thread_rng().sample_iter(&rand::distributions::Alphanumeric).take(TOKEN_CHARS).map(
        char::from,
    ).collect()
}

/// What base64's URL-safe engine encodes a byte sequence to.
pub uninterp spec fn base64_url_of(bytes: Seq<u8>) -> Seq<char>;

/// Relies on base64's `Engine::encode` with the padded URL-safe engine:
/// the result depends on the input bytes alone, and its length is four
/// characters for every started group of three bytes.
#[verifier::external_body]
fn b64_url_encode(bytes: &Vec<u8>) -> (r: String)
    ensures
        r@ == base64_url_of(bytes@),
        r@.len() == 4 * ((bytes@.len() + 2) / 3),
{
    base64::engine::general_purpose::URL_SAFE.encode(bytes)
}

/// A user-api bearer token: the id of its user and the random token
/// body, carried together so the allowlist can be checked without a
/// database round trip.
#[derive(Debug, Clone)]
pub struct AccessToken {
    pub(crate) user_id: i32,
    pub(crate) token: String,
}

impl AccessToken {
    pub closed spec fn spec_user_id(&self) -> i32 {
        self.user_id
    }

    pub closed spec fn spec_token(&self) -> Seq<char> {
        self.token@
    }

    pub fn user_id(&self) -> (r: i32)
        ensures
            r == self.spec_user_id(),
    {
        self.user_id
    }

    pub fn token(&self) -> (r: &String)
        ensures
            r@ == self.spec_token(),
    {
        &self.token
    }

    /// A fresh token for one user: thirty random alphanumeric
    /// characters.
    pub fn generate(user_id: i32) -> (r: AccessToken)
        ensures
            r.spec_user_id() == user_id,
            r.spec_token().len() == TOKEN_CHARS as int,
    {
        AccessToken { user_id, token: random_alphanumeric_token() }
    }

    /// The pair encoded for the wire: `id-token`, base64 over the
    /// URL-safe alphabet.
    pub fn encode(&self) -> (r: String)
        ensures
            r@ == base64_url_of(
                vstd::utf8::encode_utf8(
                    crate::strutil::int_str(self.spec_user_id() as int) + "-"@
                        + self.spec_token(),
                ),
            ),
    {
        let mut plain = crate::strutil::i32_to_string(self.user_id);
        plain.append("-");
        plain.append(self.token.as_str());
        let ghost pb = vstd::utf8::encode_utf8(plain@);
        let bytes_slice = plain.as_str().as_bytes();
        proof {
            assert(bytes_slice@ == pb);
        }
        let mut bytes: Vec<u8> = Vec::new();
        let n = bytes_slice.len();
        for i in 0..n
            invariant
                n == bytes_slice@.len(),
                bytes_slice@ == pb,
                bytes@ == pb.take(i as int),
        {
            bytes.push(bytes_slice[i]);
            proof {
                assert(bytes@ =~= pb.take(i + 1));
            }
        }
        proof {
            assert(bytes@ =~= pb);
        }
        b64_url_encode(&bytes)
    }
}

} // verus!
