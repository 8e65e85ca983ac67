//! Where the hub listens and how a client names that place.

use vstd::prelude::*;

verus! {

/// The port on which the hub listens.
pub const HUB_PORT: u16 = 3000;

/// The error type of the `url` crate's parser, carried through unread.
#[verifier::external_type_specification]
#[verifier::external_body]
pub struct ExParseError(url::ParseError);

/// The text that the `url` crate gives back for `input` after parsing it
/// as an absolute URL: the URL in its normal form, or nothing when `input`
/// is no such URL.
pub uninterp spec fn url_serialization(input: Seq<char>) -> Option<Seq<char>>;

/// Calls `url::Url::parse` and, where that succeeds, turns the URL back
/// into a string. The parser reads nothing but its argument, so its answer
/// is a function of `input`; no more is claimed than that.
#[verifier::external_body]
fn parse_url(input: &str) -> (parsed: Result<String, url::ParseError>)
    ensures
        match parsed {
            Ok(text) => url_serialization(input@) == Some(text@),
            Err(_) => url_serialization(input@) is None,
        },
{
    url::Url::parse(input).map(String::from)
}

/// Why a hub cannot be addressed.
#[derive(Debug, Clone, Copy, PartialEq, Eq, Structural)]
pub enum EndpointError {
    /// The address built from the host is no URL.
    BadUrl,
}

/// The address of the hub's socket on `host`, before it is checked.
pub open spec fn websocket_address(host: Seq<char>) -> Seq<char> {
    "wss://"@ + host + ":3000/ws"@
}

/// The address of the hub's port on `host`.
pub open spec fn socket_address(host: Seq<char>) -> Seq<char> {
    host + ":3000"@
}

/// Turns what the parser said into the library's own terms: the text of a
/// URL that parsed, or `BadUrl`.
pub fn accept_url(parsed: Result<String, url::ParseError>) -> (result: Result<
    String,
    EndpointError,
>)
    ensures
        match parsed {
            Ok(text) => result == Ok::<String, EndpointError>(text),
            Err(_) => result == Err::<String, EndpointError>(EndpointError::BadUrl),
        },
{
    match parsed {
        Ok(text) => Ok(text),
        Err(_) => Err(EndpointError::BadUrl),
    }
}

/// The URL under which a client reaches the hub's socket on `host`, in
/// normal form; `BadUrl` when `host` makes no URL.
pub fn websocket_url(host: &str) -> (result: Result<String, EndpointError>)
    ensures
        match result {
            Ok(url) => url_serialization(websocket_address(host@)) == Some(url@),
            Err(EndpointError::BadUrl) => url_serialization(websocket_address(host@)) is None,
        },
{
    let address = String::from_str("wss://").concat(host).concat(":3000/ws");
    accept_url(parse_url(address.as_str()))
}

/// The host-and-port pair on which a client opens its connection.
pub fn connect_address(host: &str) -> (address: String)
    ensures
        address@ == socket_address(host@),
{
    String::from_str(host).concat(":3000")
}

} // verus!
