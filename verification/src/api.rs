//! Request-level rules of the HTTP interface: where the API token is read
//! from, who counts as the administrator, which user a request acts for, and
//! the key of a project's open store.
use crate::tenant::{TenantManager, UserConfig};
use crate::text::{concat, has_prefix, is_prefix, same_text};
use vstd::prelude::*;

verus! {

/// Why a request could not be tied to a user.
#[derive(Debug, Clone, Copy, PartialEq, Eq, Structural)]
pub enum AuthError {
    /// Neither header carries a token.
    MissingToken,
    /// The administrator's token is refused on user endpoints.
    AdminTokenNotAllowed,
    /// No user holds the token.
    InvalidToken,
}

/// The token a request carries: the `authorization` header's value after
/// `Bearer `, else the `x-api-token` header's value.
pub open spec fn spec_token(authorization: Option<Seq<char>>, x_api_token: Option<Seq<char>>) -> Option<Seq<char>> {
    match authorization {
        Some(a) if is_prefix("Bearer "@, a) => Some(a.skip(7)),
        _ => x_api_token,
    }
}

/// The characters of an optional text.
pub open spec fn opt_view(o: Option<&str>) -> Option<Seq<char>> {
    match o {
        Some(s) => Some(s@),
        None => None,
    }
}

/// Reads the API token from the `authorization` (`Bearer <token>`) and
/// `x-api-token` header values (absent when missing or not visible ASCII).
pub fn extract_token(authorization: Option<&str>, x_api_token: Option<&str>) -> (t: Option<String>)
    ensures
        match (t, spec_token(opt_view(authorization), opt_view(x_api_token))) {
            (Some(a), Some(b)) => a@ == b,
            (None, None) => true,
            _ => false,
        },
{
    proof {
        reveal_strlit("Bearer ");
    }
    if let Some(a) = authorization {
        if has_prefix(a, "Bearer ") {
            let n = a.unicode_len();
            let rest = a.substring_char(7, n);
            assert(rest@ =~= a@.skip(7));
            return Some(String::from_str(rest));
        }
    }
    match x_api_token {
        Some(x) => Some(String::from_str(x)),
        None => None,
    }
}

/// Whether the request carries the administrator's token.
pub fn check_admin(token: Option<&str>, admin_token: &str) -> (b: bool)
    ensures
        b == (token matches Some(t) && t@ == admin_token@),
{
    match token {
        Some(t) => same_text(t, admin_token),
        None => false,
    }
}

/// Ties a request to a user: a token is needed, the administrator's token is
/// refused, and the user is the one holding the token among `users` (as listed
/// from the data directory).
pub fn authenticate(tenants: &TenantManager, token: Option<&str>, admin_token: &str, users: &Vec<UserConfig>) -> (r: Result<UserConfig, AuthError>)
    ensures
        match token {
            None => r == Err::<UserConfig, AuthError>(AuthError::MissingToken),
            Some(t) => if t@ == admin_token@ {
                r == Err::<UserConfig, AuthError>(AuthError::AdminTokenNotAllowed)
            } else {
                match r {
                    Ok(u) => exists|i: int|
                        0 <= i < users@.len() && users@[i] == u && u.api_token@ == t@ && forall|j: int|
                            0 <= j < i ==> (#[trigger] users@[j]).api_token@ != t@,
                    Err(e) => e == AuthError::InvalidToken && forall|j: int|
                        0 <= j < users@.len() ==> (#[trigger] users@[j]).api_token@ != t@,
                }
            },
        },
{
    match token {
        None => Err(AuthError::MissingToken),
        Some(t) => {
            if same_text(t, admin_token) {
                return Err(AuthError::AdminTokenNotAllowed);
            }
            match tenants.find_user_by_token(users, t) {
                Ok(u) => Ok(u),
                Err(_) => Err(AuthError::InvalidToken),
            }
        },
    }
}

/// The key under which a project's open store is kept: `{user_id}/{project_id}`.
pub fn store_key(user_id: &str, project_id: &str) -> (k: String)
    ensures
        k@ == user_id@ + "/"@ + project_id@,
{
    let a = concat(user_id, "/");
    concat(a.as_str(), project_id)
}

// ── Ingest ──
/// The 128-bit value of a ULID written in Crockford base 32, as
/// `ulid::Ulid::from_string` reads it; `None` when the text is not one.
pub uninterp spec fn ulid_of_text(s: Seq<char>) -> Option<u128>;

/// Calls `ulid::Ulid::from_string`. Trusted: the outcome is the ULID's value
/// read from the text (26 characters of Crockford base 32), a function of the
/// text alone; reading never panics.
#[verifier::external_body]
fn ulid_from_str(s: &str) -> (r: Option<u128>)
    ensures
        r == ulid_of_text(s@),
{
    ulid::Ulid::from_string(s).ok().map(|u| u.0)
}

/// Where an ingested memory comes from.
#[derive(Debug, Clone, Copy, PartialEq, Eq)]
pub enum IngestSource {
    /// The memory given in the request, with the id it is to be stored under
    /// (`None`: its own id).
    Given(Option<u128>),
    /// A memory built from the request's text.
    Text,
}

/// Why an ingest request is refused.
#[derive(Debug, Clone, Copy, PartialEq, Eq, Structural)]
pub enum IngestError {
    /// The `event_id` given with a memory is not a ULID.
    InvalidEventId,
    /// Neither a memory nor a text is given.
    MissingContent,
}

/// The ingest rule, given what reading the event id gave: `event_id` is
/// `None` when the request carries none, else the ULID read from it (`None`
/// when it is not one). A given memory wins over a text; with a memory, an
/// event id that is not a ULID is refused.
pub fn ingest_decision(has_memory: bool, event_id: Option<Option<u128>>, has_text: bool) -> (r: Result<IngestSource, IngestError>)
    ensures
        has_memory ==> r == match event_id {
            None => Ok::<IngestSource, IngestError>(IngestSource::Given(None)),
            Some(Some(u)) => Ok(IngestSource::Given(Some(u))),
            Some(None) => Err(IngestError::InvalidEventId),
        },
        !has_memory && has_text ==> r == Ok::<IngestSource, IngestError>(IngestSource::Text),
        !has_memory && !has_text ==> r == Err::<IngestSource, IngestError>(IngestError::MissingContent),
{
    if has_memory {
        match event_id {
            None => Ok(IngestSource::Given(None)),
            Some(Some(u)) => Ok(IngestSource::Given(Some(u))),
            Some(None) => Err(IngestError::InvalidEventId),
        }
    } else if has_text {
        Ok(IngestSource::Text)
    } else {
        Err(IngestError::MissingContent)
    }
}

/// Where an ingested memory comes from (see `ingest_decision`): the event id,
/// when one is given with a memory, is read as a ULID.
pub fn ingest_source(has_memory: bool, event_id: Option<&str>, has_text: bool) -> (r: Result<IngestSource, IngestError>)
    ensures
        has_memory ==> r == match event_id {
            None => Ok::<IngestSource, IngestError>(IngestSource::Given(None)),
            Some(e) => match ulid_of_text(e@) {
                Some(u) => Ok(IngestSource::Given(Some(u))),
                None => Err(IngestError::InvalidEventId),
            },
        },
        !has_memory && has_text ==> r == Ok::<IngestSource, IngestError>(IngestSource::Text),
        !has_memory && !has_text ==> r == Err::<IngestSource, IngestError>(IngestError::MissingContent),
{
    let parsed = if has_memory {
        match event_id {
            Some(e) => Some(ulid_from_str(e)),
            None => None,
        }
    } else {
        None
    };
    ingest_decision(has_memory, parsed, has_text)
}

} // verus!
