//! What a fetch of a manifest's address can yield.
//!
//! The raw-content host answers a request for a file that does not exist
//! with success and the fixed body `404: Not Found`. Absence is therefore
//! told from the body, not from the transfer's status. This is a rule of
//! that one host: the crawler takes a [`FetchResult`] from whoever made the
//! transfer, so a driver for another host classifies in its own way.

use crate::text::equal;
use vstd::prelude::*;
use vstd::utf8::{decode_utf8, valid_utf8};

verus! {

/// The outcome of fetching one address.
#[derive(Clone, Debug, PartialEq, Eq)]
pub enum FetchResult {
    /// The text found at the address.
    Found(String),
    /// Nothing is published at the address.
    NotFound,
    /// The transfer itself failed; the detail says how.
    TransportFailure(String),
}

/// The mathematical value of a [`FetchResult`].
pub enum Fetched {
    Found(Seq<char>),
    NotFound,
    TransportFailure(Seq<char>),
}

impl View for FetchResult {
    type V = Fetched;

    open spec fn view(&self) -> Fetched {
        match self {
            FetchResult::Found(text) => Fetched::Found(text@),
            FetchResult::NotFound => Fetched::NotFound,
            FetchResult::TransportFailure(detail) => Fetched::TransportFailure(detail@),
        }
    }
}

/// The body that stands for an absent file.
pub open spec fn absent_body() -> Seq<char> {
    "404: Not Found"@
}

/// The detail of the failure that a body which is not UTF-8 stands for.
pub open spec fn undecodable() -> Seq<char> {
    "the body is not valid UTF-8"@
}

/// The outcome that a body stands for: the body of an absent file is
/// absence, and any other body is the text that was found.
pub open spec fn classified_body(body: Seq<char>) -> Fetched {
    if body == absent_body() {
        Fetched::NotFound
    } else {
        Fetched::Found(body)
    }
}

/// How a transfer went.
#[derive(Debug, PartialEq, Eq)]
pub enum Transfer {
    /// The transfer could not be made; the detail says why.
    NotMade(String),
    /// The transfer was made and came to an end: whether the command that
    /// made it reported success, how it says it ended, and the bytes that
    /// it received.
    Ended { succeeded: bool, status: String, body: Vec<u8> },
}

/// The mathematical value of a [`Transfer`].
pub enum Transferred {
    NotMade(Seq<char>),
    Ended { succeeded: bool, status: Seq<char>, body: Seq<u8> },
}

impl View for Transfer {
    type V = Transferred;

    open spec fn view(&self) -> Transferred {
        match self {
            Transfer::NotMade(detail) => Transferred::NotMade(detail@),
            Transfer::Ended { succeeded, status, body } => Transferred::Ended {
                succeeded: *succeeded,
                status: status@,
                body: body@,
            },
        }
    }
}

/// The outcome that a transfer stands for. A transfer that could not be
/// made is a failure with its detail. One that did not end in success is a
/// failure with the way it ended, whatever it received. One that did and
/// received bytes that are not UTF-8 is a failure too; any other body is
/// classified as a text.
pub open spec fn classified(transfer: Transferred) -> Fetched {
    match transfer {
        Transferred::NotMade(detail) => Fetched::TransportFailure(detail),
        Transferred::Ended { succeeded, status, body } => if !succeeded {
            Fetched::TransportFailure(status)
        } else if valid_utf8(body) {
            classified_body(decode_utf8(body))
        } else {
            Fetched::TransportFailure(undecodable())
        },
    }
}

/// `String::from_utf8`: the text that the bytes are the UTF-8 encoding of,
/// where they are one. The contract claims that the call succeeds exactly
/// on valid UTF-8 and then yields the characters that the bytes encode.
#[verifier::external_body]
fn text_of(bytes: Vec<u8>) -> (text: Option<String>)
    ensures
        match text {
            Some(text) => valid_utf8(bytes@) && text@ == decode_utf8(bytes@),
            None => !valid_utf8(bytes@),
        },
{
    match String::from_utf8(bytes) {
        Ok(text) => Some(text),
        Err(_) => None,
    }
}

/// Classifies a body that was received.
pub fn classify_body(body: String) -> (result: FetchResult)
    ensures
        result@ == classified_body(body@),
{
    if equal(body.as_str(), "404: Not Found") {
        FetchResult::NotFound
    } else {
        FetchResult::Found(body)
    }
}

/// Classifies a transfer.
pub fn classify(transfer: Transfer) -> (result: FetchResult)
    ensures
        result@ == classified(transfer@),
{
    match transfer {
        Transfer::NotMade(detail) => FetchResult::TransportFailure(detail),
        Transfer::Ended { succeeded, status, body } => {
            if !succeeded {
                FetchResult::TransportFailure(status)
            } else {
                match text_of(body) {
                    Some(text) => classify_body(text),
                    None => FetchResult::TransportFailure("the body is not valid UTF-8".to_owned()),
                }
            }
        },
    }
}

} // verus!
