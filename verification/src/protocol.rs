//! The wire protocol: one request and one response per connection, encoded
//! in the same self-describing binary format as the command records.

use vstd::prelude::*;

use crate::codec::{
    encodable_str, parse_str, spec_encode_str, push_str_encoding, read_str, MAX_STR_BYTES,
    lemma_parse_str_encoding, lemma_window_byte, lemma_window_subrange,
};
use crate::error::Error;

verus! {

/// An enum representing a request to a key-value server.
#[derive(Debug)]
pub enum Request {
    /// Retrieve the value of a given key. The server answers [`Response::Found`]
    /// or [`Response::NotFound`].
    Get { key: String },
    /// Set a given key to a given value. The server answers [`Response::Done`].
    Put { key: String, value: String },
    /// Remove a given key. The server answers [`Response::Done`] or
    /// [`Response::NotFound`].
    Remove { key: String },
}

/// The mathematical shape of a [`Request`].
pub enum RequestModel {
    Get { key: Seq<char> },
    Put { key: Seq<char>, value: Seq<char> },
    Remove { key: Seq<char> },
}

impl View for Request {
    type V = RequestModel;

    open spec fn view(&self) -> RequestModel {
        match self {
            Request::Get { key } => RequestModel::Get { key: key@ },
            Request::Put { key, value } => RequestModel::Put { key: key@, value: value@ },
            Request::Remove { key } => RequestModel::Remove { key: key@ },
        }
    }
}

/// An enum representing the kinds of error a server can answer with.
#[derive(Debug, Clone, Copy, PartialEq, Eq, Structural)]
pub enum ErrorKind {
    /// A valid request could not be decoded.
    InvalidRequest,
    /// The storage engine failed.
    EngineError,
}

/// An enum representing a response from a key-value server.
#[derive(Debug)]
pub enum Response {
    /// The request succeeded with no value.
    Done,
    /// The key of a request was not found in the store.
    NotFound,
    /// The key of a `Get` request was found; its value follows.
    Found { value: String },
    /// An error occurred while processing a request.
    Failed { kind: ErrorKind, message: String },
}

/// The mathematical shape of a [`Response`].
pub enum ResponseModel {
    Done,
    NotFound,
    Found { value: Seq<char> },
    Failed { kind: ErrorKind, message: Seq<char> },
}

impl View for Response {
    type V = ResponseModel;

    open spec fn view(&self) -> ResponseModel {
        match self {
            Response::Done => ResponseModel::Done,
            Response::NotFound => ResponseModel::NotFound,
            Response::Found { value } => ResponseModel::Found { value: value@ },
            Response::Failed { kind, message } => ResponseModel::Failed {
                kind: *kind,
                message: message@,
            },
        }
    }
}

/// True when every string of the request is short enough to encode.
pub open spec fn request_encodable(r: RequestModel) -> bool {
    match r {
        RequestModel::Get { key } => encodable_str(key),
        RequestModel::Put { key, value } => encodable_str(key) && encodable_str(value),
        RequestModel::Remove { key } => encodable_str(key),
    }
}

/// The canonical encoding of a request.
pub open spec fn spec_encode_request(r: RequestModel) -> Seq<u8> {
    match r {
        RequestModel::Get { key } => seq![0x92u8, 0x00u8, 0x91u8] + spec_encode_str(key),
        RequestModel::Put { key, value } => seq![0x92u8, 0x01u8, 0x92u8] + spec_encode_str(key)
            + spec_encode_str(value),
        RequestModel::Remove { key } => seq![0x92u8, 0x02u8, 0x91u8] + spec_encode_str(key),
    }
}

/// The one-byte tag of an error kind.
pub open spec fn kind_byte(k: ErrorKind) -> u8 {
    match k {
        ErrorKind::InvalidRequest => 0x00u8,
        ErrorKind::EngineError => 0x01u8,
    }
}

/// True when every string of the response is short enough to encode.
pub open spec fn response_encodable(r: ResponseModel) -> bool {
    match r {
        ResponseModel::Done => true,
        ResponseModel::NotFound => true,
        ResponseModel::Found { value } => encodable_str(value),
        ResponseModel::Failed { kind, message } => encodable_str(message),
    }
}

/// The canonical encoding of a response.
pub open spec fn spec_encode_response(r: ResponseModel) -> Seq<u8> {
    match r {
        ResponseModel::Done => seq![0x92u8, 0x00u8, 0x90u8],
        ResponseModel::NotFound => seq![0x92u8, 0x01u8, 0x90u8],
        ResponseModel::Found { value } => seq![0x92u8, 0x02u8, 0x91u8] + spec_encode_str(value),
        ResponseModel::Failed { kind, message } => seq![0x92u8, 0x03u8, 0x92u8, kind_byte(kind)]
            + spec_encode_str(message),
    }
}

/// Reads an encoded request at `pos`: the request and the position of the
/// first byte after it. `None` on a truncated or malformed request.
pub open spec fn parse_request(b: Seq<u8>, pos: int) -> Option<(RequestModel, int)> {
    if 0 <= pos && pos + 3 <= b.len() && b[pos] == 0x92 {
        if b[pos + 1] == 0x00 && b[pos + 2] == 0x91 {
            match parse_str(b, pos + 3) {
                Some((key, end)) => Some((RequestModel::Get { key }, end)),
                None => None,
            }
        } else if b[pos + 1] == 0x01 && b[pos + 2] == 0x92 {
            match parse_str(b, pos + 3) {
                Some((key, mid)) => match parse_str(b, mid) {
                    Some((value, end)) => Some((RequestModel::Put { key, value }, end)),
                    None => None,
                },
                None => None,
            }
        } else if b[pos + 1] == 0x02 && b[pos + 2] == 0x91 {
            match parse_str(b, pos + 3) {
                Some((key, end)) => Some((RequestModel::Remove { key }, end)),
                None => None,
            }
        } else {
            None
        }
    } else {
        None
    }
}

/// Reads an encoded response at `pos`: the response and the position of the
/// first byte after it. `None` on a truncated or malformed response.
pub open spec fn parse_response(b: Seq<u8>, pos: int) -> Option<(ResponseModel, int)> {
    if 0 <= pos && pos + 3 <= b.len() && b[pos] == 0x92 {
        if b[pos + 1] == 0x00 && b[pos + 2] == 0x90 {
            Some((ResponseModel::Done, pos + 3))
        } else if b[pos + 1] == 0x01 && b[pos + 2] == 0x90 {
            Some((ResponseModel::NotFound, pos + 3))
        } else if b[pos + 1] == 0x02 && b[pos + 2] == 0x91 {
            match parse_str(b, pos + 3) {
                Some((value, end)) => Some((ResponseModel::Found { value }, end)),
                None => None,
            }
        } else if b[pos + 1] == 0x03 && b[pos + 2] == 0x92 && pos + 4 <= b.len() && (b[pos + 3]
            == 0x00 || b[pos + 3] == 0x01) {
            let kind = if b[pos + 3] == 0x00 {
                ErrorKind::InvalidRequest
            } else {
                ErrorKind::EngineError
            };
            match parse_str(b, pos + 4) {
                Some((message, end)) => Some((ResponseModel::Failed { kind, message }, end)),
                None => None,
            }
        } else {
            None
        }
    } else {
        None
    }
}

/// Encodes a request canonically. Fails exactly when one of its strings is
/// too long for the format.
pub fn encode_request(r: &Request) -> (out: Result<Vec<u8>, Error>)
    ensures
        out matches Ok(v) ==> request_encodable(r@) && v@ == spec_encode_request(r@),
        out matches Err(e) ==> !request_encodable(r@) && e is Encode,
{
    let mut out: Vec<u8> = Vec::new();
    match r {
        Request::Get { key } => {
            if (key.as_str().as_bytes().len() as u64) > MAX_STR_BYTES {
                return Err(Error::Encode);
            }
            out.push(0x92u8);
            out.push(0x00u8);
            out.push(0x91u8);
            push_str_encoding(&mut out, key.as_str());
            assert(out@ =~= spec_encode_request(r@));
            Ok(out)
        },
        Request::Put { key, value } => {
            if (key.as_str().as_bytes().len() as u64) > MAX_STR_BYTES || (
            value.as_str().as_bytes().len() as u64) > MAX_STR_BYTES {
                return Err(Error::Encode);
            }
            out.push(0x92u8);
            out.push(0x01u8);
            out.push(0x92u8);
            push_str_encoding(&mut out, key.as_str());
            push_str_encoding(&mut out, value.as_str());
            assert(out@ =~= spec_encode_request(r@));
            Ok(out)
        },
        Request::Remove { key } => {
            if (key.as_str().as_bytes().len() as u64) > MAX_STR_BYTES {
                return Err(Error::Encode);
            }
            out.push(0x92u8);
            out.push(0x02u8);
            out.push(0x91u8);
            push_str_encoding(&mut out, key.as_str());
            assert(out@ =~= spec_encode_request(r@));
            Ok(out)
        },
    }
}

/// Encodes a response canonically. Fails exactly when one of its strings is
/// too long for the format.
pub fn encode_response(r: &Response) -> (out: Result<Vec<u8>, Error>)
    ensures
        out matches Ok(v) ==> response_encodable(r@) && v@ == spec_encode_response(r@),
        out matches Err(e) ==> !response_encodable(r@) && e is Encode,
{
    let mut out: Vec<u8> = Vec::new();
    match r {
        Response::Done => {
            out.push(0x92u8);
            out.push(0x00u8);
            out.push(0x90u8);
            assert(out@ =~= spec_encode_response(r@));
            Ok(out)
        },
        Response::NotFound => {
            out.push(0x92u8);
            out.push(0x01u8);
            out.push(0x90u8);
            assert(out@ =~= spec_encode_response(r@));
            Ok(out)
        },
        Response::Found { value } => {
            if (value.as_str().as_bytes().len() as u64) > MAX_STR_BYTES {
                return Err(Error::Encode);
            }
            out.push(0x92u8);
            out.push(0x02u8);
            out.push(0x91u8);
            push_str_encoding(&mut out, value.as_str());
            assert(out@ =~= spec_encode_response(r@));
            Ok(out)
        },
        Response::Failed { kind, message } => {
            if (message.as_str().as_bytes().len() as u64) > MAX_STR_BYTES {
                return Err(Error::Encode);
            }
            out.push(0x92u8);
            out.push(0x03u8);
            out.push(0x92u8);
            match kind {
                ErrorKind::InvalidRequest => out.push(0x00u8),
                ErrorKind::EngineError => out.push(0x01u8),
            }
            push_str_encoding(&mut out, message.as_str());
            assert(out@ =~= spec_encode_response(r@));
            Ok(out)
        },
    }
}

/// Reads an encoded request at `pos` of `b`.
pub fn read_request(b: &[u8], pos: usize) -> (r: Option<(Request, usize)>)
    ensures
        match r {
            Some((req, end)) => parse_request(b@, pos as int) == Some((req@, end as int)),
            None => parse_request(b@, pos as int) is None,
        },
{
    if pos >= b.len() || b.len() - pos < 3 {
        return None;
    }
    if *vstd::slice::slice_index_get(b, pos) != 0x92 {
        return None;
    }
    let tag = *vstd::slice::slice_index_get(b, pos + 1);
    let arity = *vstd::slice::slice_index_get(b, pos + 2);
    if tag == 0x00 && arity == 0x91 {
        match read_str(b, pos + 3) {
            Some((key, end)) => Some((Request::Get { key }, end)),
            None => None,
        }
    } else if tag == 0x01 && arity == 0x92 {
        let (key, mid) = match read_str(b, pos + 3) {
            Some(v) => v,
            None => {
                return None;
            },
        };
        match read_str(b, mid) {
            Some((value, end)) => Some((Request::Put { key, value }, end)),
            None => None,
        }
    } else if tag == 0x02 && arity == 0x91 {
        match read_str(b, pos + 3) {
            Some((key, end)) => Some((Request::Remove { key }, end)),
            None => None,
        }
    } else {
        None
    }
}

/// Reads an encoded response at `pos` of `b`.
pub fn read_response(b: &[u8], pos: usize) -> (r: Option<(Response, usize)>)
    ensures
        match r {
            Some((resp, end)) => parse_response(b@, pos as int) == Some((resp@, end as int)),
            None => parse_response(b@, pos as int) is None,
        },
{
    if pos >= b.len() || b.len() - pos < 3 {
        return None;
    }
    if *vstd::slice::slice_index_get(b, pos) != 0x92 {
        return None;
    }
    let tag = *vstd::slice::slice_index_get(b, pos + 1);
    let arity = *vstd::slice::slice_index_get(b, pos + 2);
    if tag == 0x00 && arity == 0x90 {
        Some((Response::Done, pos + 3))
    } else if tag == 0x01 && arity == 0x90 {
        Some((Response::NotFound, pos + 3))
    } else if tag == 0x02 && arity == 0x91 {
        match read_str(b, pos + 3) {
            Some((value, end)) => Some((Response::Found { value }, end)),
            None => None,
        }
    } else if tag == 0x03 && arity == 0x92 && b.len() - pos >= 4 {
        let kb = *vstd::slice::slice_index_get(b, pos + 3);
        if kb != 0x00 && kb != 0x01 {
            return None;
        }
        let kind = if kb == 0x00 {
            ErrorKind::InvalidRequest
        } else {
            ErrorKind::EngineError
        };
        match read_str(b, pos + 4) {
            Some((message, end)) => Some((Response::Failed { kind, message }, end)),
            None => None,
        }
    } else {
        None
    }
}

/// Parsing at a window that holds the canonical encoding of a request yields
/// exactly that request: every request round-trips through the wire format.
pub proof fn lemma_parse_request_encoding(b: Seq<u8>, pos: int, r: RequestModel)
    requires
        request_encodable(r),
        0 <= pos,
        pos + spec_encode_request(r).len() <= b.len(),
        b.subrange(pos, pos + spec_encode_request(r).len()) == spec_encode_request(r),
    ensures
        parse_request(b, pos) == Some((r, pos + spec_encode_request(r).len())),
{
    let w = spec_encode_request(r);
    lemma_window_byte(b, pos, w, 0);
    lemma_window_byte(b, pos, w, 1);
    lemma_window_byte(b, pos, w, 2);
    assert(b[pos] == b[pos + 0]);
    match r {
        RequestModel::Get { key } => {
            let ek = spec_encode_str(key);
            assert(w[0] == 0x92 && w[1] == 0x00 && w[2] == 0x91);
            assert(b.subrange(pos + 3, pos + 3 + ek.len() as int) == ek) by {
                lemma_window_subrange(b, pos, w, 3, 3 + ek.len() as int);
                assert(w.subrange(3, 3 + ek.len() as int) =~= ek);
            }
            lemma_parse_str_encoding(b, pos + 3, key);
        },
        RequestModel::Put { key, value } => {
            let ek = spec_encode_str(key);
            let ev = spec_encode_str(value);
            assert(w[0] == 0x92 && w[1] == 0x01 && w[2] == 0x92);
            assert(b.subrange(pos + 3, pos + 3 + ek.len() as int) == ek) by {
                lemma_window_subrange(b, pos, w, 3, 3 + ek.len() as int);
                assert(w.subrange(3, 3 + ek.len() as int) =~= ek);
            }
            lemma_parse_str_encoding(b, pos + 3, key);
            let mid = pos + 3 + ek.len() as int;
            assert(b.subrange(mid, mid + ev.len() as int) == ev) by {
                lemma_window_subrange(b, pos, w, 3 + ek.len() as int, 3 + ek.len() as int
                    + ev.len() as int);
                assert(w.subrange(3 + ek.len() as int, 3 + ek.len() as int + ev.len() as int)
                    =~= ev);
            }
            lemma_parse_str_encoding(b, mid, value);
        },
        RequestModel::Remove { key } => {
            let ek = spec_encode_str(key);
            assert(w[0] == 0x92 && w[1] == 0x02 && w[2] == 0x91);
            assert(b.subrange(pos + 3, pos + 3 + ek.len() as int) == ek) by {
                lemma_window_subrange(b, pos, w, 3, 3 + ek.len() as int);
                assert(w.subrange(3, 3 + ek.len() as int) =~= ek);
            }
            lemma_parse_str_encoding(b, pos + 3, key);
        },
    }
}

/// Parsing at a window that holds the canonical encoding of a response
/// yields exactly that response: every response round-trips through the wire
/// format.
pub proof fn lemma_parse_response_encoding(b: Seq<u8>, pos: int, r: ResponseModel)
    requires
        response_encodable(r),
        0 <= pos,
        pos + spec_encode_response(r).len() <= b.len(),
        b.subrange(pos, pos + spec_encode_response(r).len()) == spec_encode_response(r),
    ensures
        parse_response(b, pos) == Some((r, pos + spec_encode_response(r).len())),
{
    let w = spec_encode_response(r);
    lemma_window_byte(b, pos, w, 0);
    lemma_window_byte(b, pos, w, 1);
    lemma_window_byte(b, pos, w, 2);
    assert(b[pos] == b[pos + 0]);
    match r {
        ResponseModel::Done => {
            assert(w[0] == 0x92 && w[1] == 0x00 && w[2] == 0x90);
        },
        ResponseModel::NotFound => {
            assert(w[0] == 0x92 && w[1] == 0x01 && w[2] == 0x90);
        },
        ResponseModel::Found { value } => {
            let ev = spec_encode_str(value);
            assert(w[0] == 0x92 && w[1] == 0x02 && w[2] == 0x91);
            assert(b.subrange(pos + 3, pos + 3 + ev.len() as int) == ev) by {
                lemma_window_subrange(b, pos, w, 3, 3 + ev.len() as int);
                assert(w.subrange(3, 3 + ev.len() as int) =~= ev);
            }
            lemma_parse_str_encoding(b, pos + 3, value);
        },
        ResponseModel::Failed { kind, message } => {
            let em = spec_encode_str(message);
            lemma_window_byte(b, pos, w, 3);
            assert(w[0] == 0x92 && w[1] == 0x03 && w[2] == 0x92 && w[3] == kind_byte(kind));
            assert(b.subrange(pos + 4, pos + 4 + em.len() as int) == em) by {
                lemma_window_subrange(b, pos, w, 4, 4 + em.len() as int);
                assert(w.subrange(4, 4 + em.len() as int) =~= em);
            }
            lemma_parse_str_encoding(b, pos + 4, message);
        },
    }
}

} // verus!
