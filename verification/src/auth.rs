//! Configuration of the service and bearer-token authentication.
//!
//! A request is authenticated by its `Authorization` header, which must read
//! `Bearer`, one space, and the secret of [`AppConfig`]. The header is taken
//! as the bytes that came over the wire.

use vstd::prelude::*;
use crate::errors::ServerError;
use crate::text::push_char;

verus! {

/// Settings shared by every request.
#[derive(Debug)]
pub struct AppConfig {
    /// The secret that a request must present as its bearer token.
    pub bearer_token: String,
    /// Whether the service is set up to check where a player is. The judging
    /// of an attempt does not read it.
    pub location_check: bool,
}

impl AppConfig {
    /// The settings with `token` as the secret.
    pub fn new(token: String, location_check: bool) -> (config: Self)
        ensures
            config.bearer_token == token,
            config.location_check == location_check,
    {
        AppConfig { bearer_token: token, location_check }
    }
}

/// Proof that a request presented the configured bearer token.
#[derive(Debug)]
pub struct Authenticated;

/// The token of an `Authorization` header with the bearer scheme.
#[derive(Debug)]
pub struct Bearer {
    pub token: String,
}

impl View for Bearer {
    type V = Seq<char>;

    open spec fn view(&self) -> Seq<char> {
        self.token@
    }
}

/// The length of the scheme and the space behind it.
pub const SCHEME_LEN: usize = 7;

/// The shortest header that can hold the scheme, a space and a token.
pub const MIN_HEADER_LEN: usize = 8;

/// A byte that stands for a printable ASCII character, a space or a tab.
pub open spec fn is_visible_ascii(b: u8) -> bool {
    32 <= b < 127 || b == 9
}

/// Whether a header can be read as text: every byte of it is visible ASCII.
pub open spec fn is_text(header: Seq<u8>) -> bool {
    forall|i: int| 0 <= i < header.len() ==> is_visible_ascii(#[trigger] header[i])
}

/// The bytes of `Bearer` and of one space, in ASCII.
pub open spec fn scheme_prefix() -> Seq<u8> {
    seq![66u8, 101u8, 97u8, 114u8, 101u8, 114u8, 32u8]
}

/// The characters that the bytes of a header stand for.
pub open spec fn text_of(bytes: Seq<u8>) -> Seq<char> {
    bytes.map_values(|b: u8| b as char)
}

/// What a header parses to: the token behind `Bearer` and one space, or the
/// reason why there is none.
pub open spec fn parsed(header: Seq<u8>) -> Result<Seq<char>, ServerError> {
    if header.len() < MIN_HEADER_LEN {
        Err(ServerError::HeaderTooShort)
    } else if is_text(header) && header.take(SCHEME_LEN as int) == scheme_prefix() {
        Ok(text_of(header.skip(SCHEME_LEN as int)))
    } else {
        Err(ServerError::MissingScheme)
    }
}

/// Whether a request with this header, or with none, is let in.
pub open spec fn admitted(secret: Seq<char>, header: Option<Seq<u8>>) -> Result<(), ServerError> {
    match header {
        None => Err(ServerError::NoAuthorizationHeader),
        Some(bytes) => match parsed(bytes) {
            Err(e) => Err(e),
            Ok(token) => if token == secret {
                Ok(())
            } else {
                Err(ServerError::WrongToken)
            },
        },
    }
}

fn all_visible(header: &[u8]) -> (ok: bool)
    ensures
        ok == is_text(header@),
{
    let mut i: usize = 0;
    while i < header.len()
        invariant
            i <= header.len(),
            forall|j: int| 0 <= j < i ==> is_visible_ascii(#[trigger] header@[j]),
        decreases header.len() - i,
    {
        let b = header[i];
        if !(b >= 32 && b < 127 || b == 9) {
            return false;
        }
        i += 1;
    }
    true
}

fn has_scheme(header: &[u8]) -> (ok: bool)
    requires
        header@.len() >= SCHEME_LEN,
    ensures
        ok == (header@.take(SCHEME_LEN as int) == scheme_prefix()),
{
    let ok = header[0] == 66 && header[1] == 101 && header[2] == 97 && header[3] == 114
        && header[4] == 101 && header[5] == 114 && header[6] == 32;
    proof {
        let head = header@.take(SCHEME_LEN as int);
        if ok {
            assert(head =~= scheme_prefix());
        }
    }
    ok
}

impl Bearer {
    /// Reads the token out of the bytes of an `Authorization` header.
    pub fn parse(header: &[u8]) -> (r: Result<Bearer, ServerError>)
        ensures
            match parsed(header@) {
                Ok(token) => r matches Ok(bearer) && bearer@ == token,
                Err(e) => r matches Err(found) && found == e,
            },
    {
        if header.len() < MIN_HEADER_LEN {
            return Err(ServerError::HeaderTooShort);
        }
        if !all_visible(header) || !has_scheme(header) {
            return Err(ServerError::MissingScheme);
        }
        let mut token = String::new();
        let mut i: usize = SCHEME_LEN;
        while i < header.len()
            invariant
                SCHEME_LEN <= i <= header.len(),
                token@ == text_of(header@.subrange(SCHEME_LEN as int, i as int)),
            decreases header.len() - i,
        {
            push_char(&mut token, header[i] as char);
            i += 1;
        }
        Ok(Bearer { token })
    }
}

impl Authenticated {
    /// Lets a request in if its `Authorization` header, given as `header`
    /// where the request has one, carries the secret of `config`.
    pub fn from_header(config: &AppConfig, header: Option<&[u8]>) -> (r: Result<
        Authenticated,
        ServerError,
    >)
        ensures
            match admitted(
                config.bearer_token@,
                match header {
                    Some(bytes) => Some(bytes@),
                    None => None,
                },
            ) {
                Ok(_) => r is Ok,
                Err(e) => r matches Err(found) && found == e,
            },
    {
        match header {
            None => Err(ServerError::NoAuthorizationHeader),
            Some(bytes) => match Bearer::parse(bytes) {
                Err(e) => Err(e),
                Ok(bearer) => if config.bearer_token == bearer.token {
                    Ok(Authenticated)
                } else {
                    Err(ServerError::WrongToken)
                },
            },
        }
    }
}

} // verus!
