//! The client side of the protocol: each call encodes one request and
//! interprets one response. The surrounding program owns the connection; it
//! writes the request bytes out and hands the response bytes back.

use vstd::prelude::*;

use crate::error::Error;
use crate::protocol::{ResponseModel, read_response, parse_response};

verus! {

/// Interprets the response to a `Get` request: a found value, a missing key,
/// or a protocol error for any response that does not match a `Get`. Bytes
/// that do not decode are a decode error.
pub fn interpret_get_response(bytes: &[u8]) -> (r: Result<Option<String>, Error>)
    ensures
        match parse_response(bytes@, 0) {
            Some((resp, end)) => match resp {
                ResponseModel::Found { value } => r matches Ok(v) && v matches Some(s) && s@
                    == value,
                ResponseModel::NotFound => r matches Ok(v) && v is None,
                ResponseModel::Done => r matches Err(e) && e is ProtocolError,
                ResponseModel::Failed { kind, message } => r matches Err(e) && e
                    is ProtocolError,
            },
            None => r matches Err(e) && e is Decode,
        },
{
    match read_response(bytes, 0) {
        Some((resp, _)) => match resp {
            crate::protocol::Response::Found { value } => Ok(Some(value)),
            crate::protocol::Response::NotFound => Ok(None),
            _ => Err(Error::ProtocolError),
        },
        None => Err(Error::Decode),
    }
}

/// Interprets the response to a `Put` or `Remove` request: success, a
/// missing key, or a protocol error for any response that does not match a
/// mutation. Bytes that do not decode are a decode error.
pub fn interpret_mutation_response(bytes: &[u8]) -> (r: Result<(), Error>)
    ensures
        match parse_response(bytes@, 0) {
            Some((resp, end)) => match resp {
                ResponseModel::Done => r is Ok,
                ResponseModel::NotFound => r matches Err(e) && e is KeyNotFound,
                ResponseModel::Found { value } => r matches Err(e) && e is ProtocolError,
                ResponseModel::Failed { kind, message } => r matches Err(e) && e
                    is ProtocolError,
            },
            None => r matches Err(e) && e is Decode,
        },
{
    match read_response(bytes, 0) {
        Some((resp, _)) => match resp {
            crate::protocol::Response::Done => Ok(()),
            crate::protocol::Response::NotFound => Err(Error::KeyNotFound),
            _ => Err(Error::ProtocolError),
        },
        None => Err(Error::Decode),
    }
}

} // verus!
