//! The server side of the protocol: one request is decoded, dispatched
//! against the storage engine, and answered with one response. The
//! surrounding program owns the listener; it hands each connection's request
//! bytes in and writes the response bytes back.

use vstd::prelude::*;

use crate::engine::Engine;
use crate::error::Error;
use crate::protocol::{
    ErrorKind, Request, RequestModel, Response, ResponseModel, encode_response, read_request,
    parse_request, parse_response, spec_encode_response, lemma_parse_response_encoding,
};

verus! {

/// True when `resp` is a faithful answer to `req` for an engine whose
/// mapping was `m0` before the request and `m1` after it: a found value is
/// the key's value, absence is answered `NotFound`, a mutation that answers
/// `Done` changed exactly its key, and a reported failure changed nothing.
pub open spec fn valid_response(
    req: RequestModel,
    m0: Map<Seq<char>, Seq<char>>,
    m1: Map<Seq<char>, Seq<char>>,
    resp: ResponseModel,
) -> bool {
    match req {
        RequestModel::Get { key } => m1 == m0 && match resp {
            ResponseModel::Found { value } => m0.contains_key(key) && value == m0[key],
            ResponseModel::NotFound => !m0.contains_key(key),
            ResponseModel::Failed { kind, message } => kind is EngineError,
            ResponseModel::Done => false,
        },
        RequestModel::Put { key, value } => match resp {
            ResponseModel::Done => m1 == m0.insert(key, value),
            ResponseModel::NotFound => m1 == m0,
            ResponseModel::Failed { kind, message } => kind is EngineError && m1 == m0,
            ResponseModel::Found { value } => false,
        },
        RequestModel::Remove { key } => match resp {
            ResponseModel::Done => m0.contains_key(key) && m1 == m0.remove(key),
            ResponseModel::NotFound => !m0.contains_key(key) && m1 == m0,
            ResponseModel::Failed { kind, message } => kind is EngineError && m1 == m0,
            ResponseModel::Found { value } => false,
        },
    }
}

/// The response that answers a `Get`, for each value the engine can return:
/// a present value is `Found`, a clean absence `NotFound`, and a storage
/// failure an engine error (a get never reports a missing key as an error).
pub fn get_response(r: Result<Option<String>, Error>) -> (resp: Response)
    ensures
        match r {
            Ok(v) => match v {
                Some(s) => resp matches Response::Found { value } && value@ == s@,
                None => resp is NotFound,
            },
            Err(e) => resp matches Response::Failed { kind, message } && kind
                == ErrorKind::EngineError,
        },
{
    match r {
        Ok(Some(value)) => Response::Found { value },
        Ok(None) => Response::NotFound,
        Err(e) => Response::Failed {
            kind: ErrorKind::EngineError,
            message: String::from_str(e.message()),
        },
    }
}

/// The response that answers a `Put` or a `Remove`, for each value the
/// engine can return: success is `Done`, a missing key `NotFound`, any other
/// storage failure an engine error.
pub fn mutation_response(r: Result<(), Error>) -> (resp: Response)
    ensures
        match r {
            Ok(u) => resp is Done,
            Err(e) => if e is KeyNotFound {
                resp is NotFound
            } else {
                resp matches Response::Failed { kind, message } && kind
                    == ErrorKind::EngineError
            },
        },
{
    match r {
        Ok(()) => Response::Done,
        Err(Error::KeyNotFound) => Response::NotFound,
        Err(e) => Response::Failed {
            kind: ErrorKind::EngineError,
            message: String::from_str(e.message()),
        },
    }
}

/// Dispatches one request against the storage engine and forms the
/// response: the engine method matching the request is called once and its
/// result is mapped by [`get_response`] or [`mutation_response`], so the
/// answer is faithful, by [`valid_response`].
pub fn handle_request<E: Engine>(engine: &mut E, request: Request) -> (r: Response)
    requires
        old(engine).inv(),
    ensures
        final(engine).inv(),
        valid_response(request@, old(engine).model(), final(engine).model(), r@),
{
    match request {
        Request::Get { key } => get_response(engine.get(key)),
        Request::Put { key, value } => mutation_response(engine.set(key, value)),
        Request::Remove { key } => mutation_response(engine.remove(key)),
    }
}

/// Encodes a failure response, dropping the message if it is too long for
/// the wire format (a failure report must always go out).
fn failure_response_bytes(kind: ErrorKind, message: &'static str) -> (out: Vec<u8>)
    ensures
        parse_response(out@, 0) matches Some((r, end)) && r matches ResponseModel::Failed {
            kind: k,
            message: m,
        } && k == kind,
{
    let resp = Response::Failed { kind, message: String::from_str(message) };
    match encode_response(&resp) {
        Ok(v) => {
            proof {
                assert(v@.subrange(0, spec_encode_response(resp@).len() as int) =~= v@);
                lemma_parse_response_encoding(v@, 0, resp@);
            }
            v
        },
        Err(_) => {
            let mut out: Vec<u8> = Vec::new();
            out.push(0x92u8);
            out.push(0x03u8);
            out.push(0x92u8);
            match kind {
                ErrorKind::InvalidRequest => out.push(0x00u8),
                ErrorKind::EngineError => out.push(0x01u8),
            }
            out.push(0xa0u8);
            proof {
                let ghost bare = ResponseModel::Failed { kind, message: Seq::<char>::empty() };
                assert(vstd::utf8::encode_utf8(Seq::<char>::empty()) =~= Seq::<u8>::empty());
                assert(out@ =~= spec_encode_response(bare));
                assert(out@.subrange(0, spec_encode_response(bare).len() as int) =~= out@);
                lemma_parse_response_encoding(out@, 0, bare);
            }
            out
        },
    }
}

/// Serves one connection's bytes: decodes one request, dispatches it, and
/// encodes one response. Bytes that do not decode are answered with an
/// `InvalidRequest` failure and the engine is left untouched; a response
/// whose value is too long for the wire format is reported as an engine
/// failure. Whatever comes in, exactly one well-formed response goes out.
pub fn handle_request_bytes<E: Engine>(engine: &mut E, bytes: &[u8]) -> (out: Vec<u8>)
    requires
        old(engine).inv(),
    ensures
        final(engine).inv(),
        match parse_request(bytes@, 0) {
            Some((req, reqend)) => parse_response(out@, 0) matches Some((resp, end))
                && valid_response(req, old(engine).model(), final(engine).model(), resp),
            None => final(engine).model() == old(engine).model() && (parse_response(out@, 0)
                matches Some((resp, end)) && resp matches ResponseModel::Failed {
                kind,
                message,
            } && kind == ErrorKind::InvalidRequest),
        },
{
    let request = match read_request(bytes, 0) {
        Some((req, _)) => req,
        None => {
            return failure_response_bytes(ErrorKind::InvalidRequest, "Decode error");
        },
    };
    let response = handle_request(engine, request);
    match encode_response(&response) {
        Ok(v) => {
            proof {
                assert(v@.subrange(0, spec_encode_response(response@).len() as int) =~= v@);
                lemma_parse_response_encoding(v@, 0, response@);
            }
            v
        },
        Err(_) => failure_response_bytes(ErrorKind::EngineError, "response too large"),
    }
}

/// Decides whether a store directory may be served with the requested
/// engine: a persisted marker must name that engine, and a directory without
/// one gets the marker written (`Ok(true)` asks the caller to persist it).
pub fn check_engine(existing: Option<&String>, requested: &String) -> (r: Result<bool, Error>)
    ensures
        match existing {
            Some(e) => if e@ == requested@ {
                r matches Ok(w) && !w
            } else {
                r matches Err(x) && x is WrongEngine
            },
            None => r matches Ok(w) && w,
        },
{
    match existing {
        Some(e) => {
            if e.eq(requested) {
                Ok(false)
            } else {
                Err(Error::WrongEngine)
            }
        },
        None => Ok(true),
    }
}

} // verus!
