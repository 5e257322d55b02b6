//! The record codec: commands are encoded as a tagged union in a
//! self-describing binary format whose framing guarantees that the value of an
//! encoded `Put` record starts exactly [`VALUE_OFFSET`] bytes after the start
//! of the record.
//!
//! The encoding of a record is: an array header of length two, a one-byte
//! variant tag, an array header for the variant's fields, then the fields,
//! each a length-prefixed UTF-8 string. All three framing bytes are
//! single-byte headers, which is why the value of a `Put` (encoded before the
//! key) always starts at `record_start + 3`.

use vstd::prelude::*;
use vstd::utf8::{encode_utf8, decode_utf8, valid_utf8};

use crate::command::{Command, CommandModel, Offset, VALUE_OFFSET};
use crate::error::Error;

verus! {

/// Strings longer than this many UTF-8 bytes cannot be represented by the
/// format's longest string header (four length bytes).
pub const MAX_STR_BYTES: u64 = 0xffff_ffff;

/// True when a string is short enough for its encoding to exist.
pub open spec fn encodable_str(s: Seq<char>) -> bool {
    encode_utf8(s).len() <= MAX_STR_BYTES
}

/// The canonical header that prefixes a string body of `n` bytes: the
/// shortest header form whose length field can hold `n`.
pub open spec fn spec_str_header(n: nat) -> Seq<u8>
    recommends
        n <= MAX_STR_BYTES,
{
    if n < 32 {
        seq![(0xa0 + n) as u8]
    } else if n < 0x100 {
        seq![0xd9u8, n as u8]
    } else if n < 0x10000 {
        seq![0xdau8, (n / 0x100) as u8, (n % 0x100) as u8]
    } else {
        seq![
            0xdbu8,
            (n / 0x1000000) as u8,
            ((n / 0x10000) % 0x100) as u8,
            ((n / 0x100) % 0x100) as u8,
            (n % 0x100) as u8,
        ]
    }
}

/// The canonical encoding of a string: a header carrying the byte length,
/// then the UTF-8 bytes.
pub open spec fn spec_encode_str(s: Seq<char>) -> Seq<u8> {
    spec_str_header(encode_utf8(s).len()) + encode_utf8(s)
}

/// True when every string of the command is short enough to encode.
pub open spec fn command_encodable(c: CommandModel) -> bool {
    match c {
        CommandModel::Put { value, key } => encodable_str(value) && encodable_str(key),
        CommandModel::Remove { key } => encodable_str(key),
    }
}

/// The canonical encoding of a command record.
pub open spec fn spec_encode_command(c: CommandModel) -> Seq<u8> {
    match c {
        CommandModel::Put { value, key } => seq![0x92u8, 0x00u8, 0x92u8] + spec_encode_str(value)
            + spec_encode_str(key),
        CommandModel::Remove { key } => seq![0x92u8, 0x01u8, 0x91u8] + spec_encode_str(key),
    }
}

/// Reads a string header at `pos`: the byte length of the string body and
/// the position at which the body starts. Accepts every well-formed header
/// form, canonical or not.
pub open spec fn parse_str_header(b: Seq<u8>, pos: int) -> Option<(int, int)> {
    if !(0 <= pos < b.len()) {
        None
    } else {
        let h = b[pos];
        if 0xa0 <= h <= 0xbf {
            Some(((h - 0xa0) as int, pos + 1))
        } else if h == 0xd9 && pos + 2 <= b.len() {
            Some((b[pos + 1] as int, pos + 2))
        } else if h == 0xda && pos + 3 <= b.len() {
            Some((b[pos + 1] * 0x100 + b[pos + 2], pos + 3))
        } else if h == 0xdb && pos + 5 <= b.len() {
            Some(
                (
                    b[pos + 1] * 0x1000000 + b[pos + 2] * 0x10000 + b[pos + 3] * 0x100 + b[pos
                        + 4],
                    pos + 5,
                ),
            )
        } else {
            None
        }
    }
}

/// Reads an encoded string at `pos`: the decoded characters and the position
/// of the first byte after the string. `None` on a truncated or malformed
/// string.
pub open spec fn parse_str(b: Seq<u8>, pos: int) -> Option<(Seq<char>, int)> {
    match parse_str_header(b, pos) {
        Some((n, start)) => {
            if start + n <= b.len() && valid_utf8(b.subrange(start, start + n)) {
                Some((decode_utf8(b.subrange(start, start + n)), start + n))
            } else {
                None
            }
        },
        None => None,
    }
}

/// Reads an encoded command record at `pos`: the command and the position of
/// the first byte after the record. `None` on a truncated or malformed
/// record.
pub open spec fn parse_command(b: Seq<u8>, pos: int) -> Option<(CommandModel, int)> {
    if 0 <= pos && pos + 3 <= b.len() && b[pos] == 0x92 {
        if b[pos + 1] == 0x00 && b[pos + 2] == 0x92 {
            match parse_str(b, pos + 3) {
                Some((value, mid)) => match parse_str(b, mid) {
                    Some((key, end)) => Some((CommandModel::Put { value, key }, end)),
                    None => None,
                },
                None => None,
            }
        } else if b[pos + 1] == 0x01 && b[pos + 2] == 0x91 {
            match parse_str(b, pos + 3) {
                Some((key, end)) => Some((CommandModel::Remove { key }, end)),
                None => None,
            }
        } else {
            None
        }
    } else {
        None
    }
}

/// Appends the canonical string header for a body of `n` bytes.
fn push_str_header(out: &mut Vec<u8>, n: u64)
    requires
        n <= MAX_STR_BYTES,
    ensures
        final(out)@ == old(out)@ + spec_str_header(n as nat),
{
    if n < 32 {
        out.push(0xa0u8 + n as u8);
    } else if n < 0x100 {
        out.push(0xd9u8);
        out.push(n as u8);
    } else if n < 0x10000 {
        out.push(0xdau8);
        out.push((n / 0x100) as u8);
        out.push((n % 0x100) as u8);
    } else {
        out.push(0xdbu8);
        out.push((n / 0x1000000) as u8);
        out.push(((n / 0x10000) % 0x100) as u8);
        out.push(((n / 0x100) % 0x100) as u8);
        out.push((n % 0x100) as u8);
    }
    assert(final(out)@ =~= old(out)@ + spec_str_header(n as nat));
}

/// Appends the canonical encoding of a string.
pub(crate) fn push_str_encoding(out: &mut Vec<u8>, s: &str)
    requires
        encodable_str(s@),
    ensures
        final(out)@ == old(out)@ + spec_encode_str(s@),
{
    let mut bytes = s.as_bytes_vec();
    let n = bytes.len();
    push_str_header(out, n as u64);
    out.append(&mut bytes);
    assert(final(out)@ =~= old(out)@ + spec_encode_str(s@));
}

/// Encodes a command record canonically. Fails exactly when one of the
/// command's strings is too long for the format.
pub fn encode_command(c: &Command) -> (r: Result<Vec<u8>, Error>)
    ensures
        r matches Ok(v) ==> command_encodable(c@) && v@ == spec_encode_command(c@),
        r matches Err(e) ==> !command_encodable(c@) && e is Encode,
{
    let mut out: Vec<u8> = Vec::new();
    match c {
        Command::Put { value, key } => {
            if (value.as_str().as_bytes().len() as u64) > MAX_STR_BYTES || (
            key.as_str().as_bytes().len() as u64) > MAX_STR_BYTES {
                return Err(Error::Encode);
            }
            out.push(0x92u8);
            out.push(0x00u8);
            out.push(0x92u8);
            push_str_encoding(&mut out, value.as_str());
            push_str_encoding(&mut out, key.as_str());
            assert(out@ =~= spec_encode_command(c@));
            Ok(out)
        },
        Command::Remove { key } => {
            if (key.as_str().as_bytes().len() as u64) > MAX_STR_BYTES {
                return Err(Error::Encode);
            }
            out.push(0x92u8);
            out.push(0x01u8);
            out.push(0x91u8);
            push_str_encoding(&mut out, key.as_str());
            assert(out@ =~= spec_encode_command(c@));
            Ok(out)
        },
    }
}

/// Relies on String::from_utf8: it succeeds exactly on valid UTF-8 input and
/// returns the string whose characters those bytes encode.
#[verifier::external_body]
pub(crate) fn string_from_utf8(bytes: Vec<u8>) -> (r: Option<String>)
    ensures
        r is Some <==> valid_utf8(bytes@),
        r matches Some(s) ==> encode_utf8(s@) == bytes@,
{
    String::from_utf8(bytes).ok()
}

/// Reads a string header at `pos` of `b`: the byte length of the string body
/// and the position at which the body starts.
fn read_str_header(b: &[u8], pos: usize) -> (r: Option<(u64, usize)>)
    ensures
        match r {
            Some((n, start)) => parse_str_header(b@, pos as int) == Some(
                (n as int, start as int),
            ),
            None => parse_str_header(b@, pos as int) is None,
        },
{
    if pos >= b.len() {
        return None;
    }
    let h = *vstd::slice::slice_index_get(b, pos);
    if 0xa0 <= h && h <= 0xbf {
        Some(((h - 0xa0) as u64, pos + 1))
    } else if h == 0xd9 && b.len() - pos >= 2 {
        let n = *vstd::slice::slice_index_get(b, pos + 1) as u64;
        Some((n, pos + 2))
    } else if h == 0xda && b.len() - pos >= 3 {
        let n = (*vstd::slice::slice_index_get(b, pos + 1) as u64) * 0x100 + (
        *vstd::slice::slice_index_get(b, pos + 2) as u64);
        Some((n, pos + 3))
    } else if h == 0xdb && b.len() - pos >= 5 {
        let n = (*vstd::slice::slice_index_get(b, pos + 1) as u64) * 0x1000000 + (
        *vstd::slice::slice_index_get(b, pos + 2) as u64) * 0x10000 + (
        *vstd::slice::slice_index_get(b, pos + 3) as u64) * 0x100 + (
        *vstd::slice::slice_index_get(b, pos + 4) as u64);
        Some((n, pos + 5))
    } else {
        None
    }
}

/// Reads an encoded string at `pos` of `b`: the decoded string and the
/// position of the first byte after it. `None` on a truncated or malformed
/// string.
pub fn read_str(b: &[u8], pos: usize) -> (r: Option<(String, usize)>)
    ensures
        match r {
            Some((s, end)) => parse_str(b@, pos as int) == Some((s@, end as int)),
            None => parse_str(b@, pos as int) is None,
        },
{
    let (n, start) = match read_str_header(b, pos) {
        Some(h) => h,
        None => {
            return None;
        },
    };
    if n > (b.len() - start) as u64 {
        return None;
    }
    let end = start + n as usize;
    let body = vstd::slice::slice_to_vec(vstd::slice::slice_subrange(b, start, end));
    match string_from_utf8(body) {
        Some(s) => {
            proof {
                vstd::utf8::encode_utf8_decode_utf8(s@);
            }
            Some((s, end))
        },
        None => None,
    }
}

/// Reads an encoded command record at `pos` of `b`: the command and the
/// position of the first byte after the record. `None` on a truncated or
/// malformed record.
pub fn read_command(b: &[u8], pos: usize) -> (r: Option<(Command, usize)>)
    ensures
        match r {
            Some((c, end)) => parse_command(b@, pos as int) == Some((c@, end as int)),
            None => parse_command(b@, pos as int) is None,
        },
{
    if pos >= b.len() || b.len() - pos < 3 {
        return None;
    }
    if *vstd::slice::slice_index_get(b, pos) != 0x92 {
        return None;
    }
    let tag = *vstd::slice::slice_index_get(b, pos + 1);
    let arity = *vstd::slice::slice_index_get(b, pos + 2);
    if tag == 0x00 && arity == 0x92 {
        let (value, mid) = match read_str(b, pos + 3) {
            Some(v) => v,
            None => {
                return None;
            },
        };
        match read_str(b, mid) {
            Some((key, end)) => Some((Command::Put { value, key }, end)),
            None => None,
        }
    } else if tag == 0x01 && arity == 0x91 {
        match read_str(b, pos + 3) {
            Some((key, end)) => Some((Command::Remove { key }, end)),
            None => None,
        }
    } else {
        None
    }
}

/// Walks the records of a byte stream in order, yielding each command with
/// the offset of its value and its total length. Ends cleanly at the end of
/// the stream; a truncated or malformed record yields an error and ends the
/// walk.
pub struct ReaderIterator<'a> {
    data: &'a [u8],
    offset: usize,
}

impl<'a> ReaderIterator<'a> {
    /// The bytes being walked.
    pub closed spec fn data_view(&self) -> Seq<u8> {
        self.data@
    }

    /// The position of the next record.
    pub closed spec fn pos(&self) -> int {
        self.offset as int
    }

    /// The position never runs past the end.
    pub open spec fn inv(&self) -> bool {
        0 <= self.pos() <= self.data_view().len()
    }

    /// Starts a walk at the beginning of `data`.
    pub fn init(data: &'a [u8]) -> (r: Self)
        ensures
            r.inv(),
            r.data_view() == data@,
            r.pos() == 0,
    {
        ReaderIterator { data, offset: 0 }
    }

    /// The position of the next record, also the number of bytes cleanly
    /// walked so far.
    pub fn offset(&self) -> (r: usize)
        ensures
            r == self.pos(),
    {
        self.offset
    }

    /// The next record: `None` at a clean end of stream, an error on a
    /// truncated or malformed record.
    pub fn next(&mut self) -> (r: Option<Result<(Command, Offset, u64), Error>>)
        requires
            old(self).inv(),
        ensures
            final(self).inv(),
            final(self).data_view() == old(self).data_view(),
            match r {
                None => old(self).pos() == old(self).data_view().len() && final(self).pos()
                    == old(self).pos(),
                Some(Ok((c, off, len))) => {
                    &&& parse_command(old(self).data_view(), old(self).pos()) == Some(
                        (c@, final(self).pos()),
                    )
                    &&& off@ == old(self).pos() + 3
                    &&& len == final(self).pos() - old(self).pos()
                    &&& old(self).pos() < final(self).pos() <= old(self).data_view().len()
                },
                Some(Err(e)) => e is Decode && parse_command(
                    old(self).data_view(),
                    old(self).pos(),
                ) is None && old(self).pos() < old(self).data_view().len() && final(self).pos()
                    == old(self).pos(),
            },
    {
        if self.offset == self.data.len() {
            return None;
        }
        match read_command(self.data, self.offset) {
            Some((c, end)) => {
                proof {
                    lemma_parse_command_bounds(self.data@, self.offset as int);
                }
                let start = self.offset;
                self.offset = end;
                Some(Ok((c, Offset::from_record_start(start as u64), (end - start) as u64)))
            },
            None => Some(Err(Error::Decode)),
        }
    }
}

/// A successful string parse always makes progress and stays in bounds.
pub proof fn lemma_parse_str_bounds(b: Seq<u8>, pos: int)
    requires
        parse_str(b, pos) is Some,
    ensures
        pos < parse_str(b, pos)->Some_0.1 <= b.len(),
{
}

/// A successful record parse always makes progress and stays in bounds.
pub proof fn lemma_parse_command_bounds(b: Seq<u8>, pos: int)
    requires
        parse_command(b, pos) is Some,
    ensures
        pos + 3 < parse_command(b, pos)->Some_0.1 <= b.len(),
{
    if b[pos + 1] == 0x00 {
        lemma_parse_str_bounds(b, pos + 3);
        lemma_parse_str_bounds(b, parse_str(b, pos + 3)->Some_0.1);
    } else {
        lemma_parse_str_bounds(b, pos + 3);
    }
}

/// A string parse reads only the bytes between its start and its end: it
/// comes out the same in any stream that agrees with the first one there.
pub proof fn lemma_parse_str_stable(b1: Seq<u8>, b2: Seq<u8>, pos: int)
    requires
        parse_str(b1, pos) is Some,
        parse_str(b1, pos)->Some_0.1 <= b2.len(),
        forall|i: int| pos <= i < parse_str(b1, pos)->Some_0.1 ==> b1[i] == b2[i],
    ensures
        parse_str(b2, pos) == parse_str(b1, pos),
{
    let (n, start) = parse_str_header(b1, pos)->Some_0;
    let end = start + n;
    assert(b1[pos] == b2[pos]);
    assert(parse_str_header(b2, pos) == Some((n, start)));
    assert(b2.subrange(start, end) =~= b1.subrange(start, end));
}

/// A record parse reads only the bytes between its start and its end: it
/// comes out the same in any stream that agrees with the first one there.
pub proof fn lemma_parse_command_stable(b1: Seq<u8>, b2: Seq<u8>, pos: int)
    requires
        parse_command(b1, pos) is Some,
        parse_command(b1, pos)->Some_0.1 <= b2.len(),
        forall|i: int| pos <= i < parse_command(b1, pos)->Some_0.1 ==> b1[i] == b2[i],
    ensures
        parse_command(b2, pos) == parse_command(b1, pos),
{
    let end = parse_command(b1, pos)->Some_0.1;
    assert(b1[pos] == b2[pos] && b1[pos + 1] == b2[pos + 1] && b1[pos + 2] == b2[pos + 2]);
    if b1[pos + 1] == 0x00 {
        let mid = parse_str(b1, pos + 3)->Some_0.1;
        lemma_parse_str_bounds(b1, pos + 3);
        lemma_parse_str_bounds(b1, mid);
        lemma_parse_str_stable(b1, b2, pos + 3);
        lemma_parse_str_stable(b1, b2, mid);
    } else {
        lemma_parse_str_bounds(b1, pos + 3);
        lemma_parse_str_stable(b1, b2, pos + 3);
    }
}

/// Every string a parse can produce fits the format again: no header form
/// carries a length the longest header could not.
pub proof fn lemma_parse_str_encodable(b: Seq<u8>, pos: int)
    requires
        parse_str(b, pos) is Some,
    ensures
        encodable_str(parse_str(b, pos)->Some_0.0),
{
    let (n, start) = parse_str_header(b, pos)->Some_0;
    assert(n <= 0xffff_ffff);
    let body = b.subrange(start, start + n);
    vstd::utf8::decode_utf8_encode_utf8(body);
}

/// One byte of `b` inside a window that holds `w` equals the matching byte
/// of `w`.
pub(crate) proof fn lemma_window_byte(b: Seq<u8>, pos: int, w: Seq<u8>, i: int)
    requires
        0 <= pos,
        pos + w.len() <= b.len(),
        b.subrange(pos, pos + w.len()) == w,
        0 <= i < w.len(),
    ensures
        b[pos + i] == w[i],
{
    assert(b.subrange(pos, pos + w.len())[i] == b[pos + i]);
}

/// A stretch of `b` inside a window that holds `w` equals the matching
/// stretch of `w`.
pub(crate) proof fn lemma_window_subrange(b: Seq<u8>, pos: int, w: Seq<u8>, lo: int, hi: int)
    requires
        0 <= pos,
        pos + w.len() <= b.len(),
        b.subrange(pos, pos + w.len()) == w,
        0 <= lo <= hi <= w.len(),
    ensures
        b.subrange(pos + lo, pos + hi) == w.subrange(lo, hi),
{
    assert(b.subrange(pos + lo, pos + hi) =~= w.subrange(lo, hi)) by {
        assert forall|j: int| 0 <= j < hi - lo implies b.subrange(pos + lo, pos + hi)[j]
            == w.subrange(lo, hi)[j] by {
            lemma_window_byte(b, pos, w, lo + j);
            assert(b.subrange(pos + lo, pos + hi)[j] == b[pos + lo + j]);
            assert(w.subrange(lo, hi)[j] == w[lo + j]);
        }
    }
}

/// The four length bytes of the longest string header recompose to the
/// length they were taken from.
proof fn lemma_u32_byte_decomposition(m: u64)
    by (bit_vector)
    requires
        m <= 0xffff_ffff,
    ensures
        m / 0x1000000 < 0x100,
        m == (m / 0x1000000) * 0x1000000 + ((m / 0x10000) % 0x100) * 0x10000 + ((m / 0x100)
            % 0x100) * 0x100 + m % 0x100,
{
}

/// The two length bytes of the two-byte string header recompose likewise.
proof fn lemma_u16_byte_decomposition(m: u64)
    by (bit_vector)
    requires
        m < 0x10000,
    ensures
        m / 0x100 < 0x100,
        m == (m / 0x100) * 0x100 + m % 0x100,
{
}

/// Parsing at a window that holds the canonical encoding of a string yields
/// exactly that string, whatever bytes surround the window.
pub proof fn lemma_parse_str_encoding(b: Seq<u8>, pos: int, s: Seq<char>)
    requires
        encodable_str(s),
        0 <= pos,
        pos + spec_encode_str(s).len() <= b.len(),
        b.subrange(pos, pos + spec_encode_str(s).len()) == spec_encode_str(s),
    ensures
        parse_str(b, pos) == Some((s, pos + spec_encode_str(s).len())),
{
    let u = encode_utf8(s);
    let n = u.len();
    let h = spec_str_header(n);
    let w = spec_encode_str(s);
    let hl = h.len() as int;
    assert forall|i: int| 0 <= i < hl implies b[pos + i] == h[i] by {
        lemma_window_byte(b, pos, w, i);
        assert(w[i] == h[i]);
    }
    let m = n as u64;
    if n < 32 {
        assert(h[0] == (0xa0 + n) as u8);
        assert(b[pos] == b[pos + 0]);
        assert(parse_str_header(b, pos) == Some((n as int, pos + 1)));
    } else if n < 0x100 {
        assert(h[0] == 0xd9 && h[1] == n as u8);
        assert(b[pos] == b[pos + 0]);
        assert(parse_str_header(b, pos) == Some((n as int, pos + 2)));
    } else if n < 0x10000 {
        lemma_u16_byte_decomposition(m);
        assert(h[0] == 0xda && h[1] == (n / 0x100) as u8 && h[2] == (n % 0x100) as u8);
        assert(b[pos] == b[pos + 0]);
        assert(b[pos + 1] * 0x100 + b[pos + 2] == n);
        assert(parse_str_header(b, pos) == Some((n as int, pos + 3)));
    } else {
        lemma_u32_byte_decomposition(m);
        assert(h[0] == 0xdb && h[1] == (n / 0x1000000) as u8 && h[2] == ((n / 0x10000)
            % 0x100) as u8 && h[3] == ((n / 0x100) % 0x100) as u8 && h[4] == (n % 0x100) as u8);
        assert(b[pos] == b[pos + 0]);
        assert(b[pos + 1] * 0x1000000 + b[pos + 2] * 0x10000 + b[pos + 3] * 0x100 + b[pos + 4]
            == n);
        assert(parse_str_header(b, pos) == Some((n as int, pos + 5)));
    }
    let start = pos + hl;
    assert(b.subrange(start, start + n) == u) by {
        lemma_window_subrange(b, pos, w, hl, hl + n);
        assert(w.subrange(hl, hl + n) =~= u);
    }
    vstd::utf8::encode_utf8_valid_utf8(s);
    vstd::utf8::encode_utf8_decode_utf8(s);
}

/// Parsing at a window that holds the canonical encoding of a command yields
/// exactly that command, whatever bytes surround the window.
pub proof fn lemma_parse_command_encoding(b: Seq<u8>, pos: int, c: CommandModel)
    requires
        command_encodable(c),
        0 <= pos,
        pos + spec_encode_command(c).len() <= b.len(),
        b.subrange(pos, pos + spec_encode_command(c).len()) == spec_encode_command(c),
    ensures
        parse_command(b, pos) == Some((c, pos + spec_encode_command(c).len())),
{
    let w = spec_encode_command(c);
    lemma_window_byte(b, pos, w, 0);
    lemma_window_byte(b, pos, w, 1);
    lemma_window_byte(b, pos, w, 2);
    assert(b[pos] == b[pos + 0]);
    match c {
        CommandModel::Put { value, key } => {
            let ev = spec_encode_str(value);
            let ek = spec_encode_str(key);
            assert(w[0] == 0x92 && w[1] == 0x00 && w[2] == 0x92);
            assert(b.subrange(pos + 3, pos + 3 + ev.len() as int) == ev) by {
                lemma_window_subrange(b, pos, w, 3, 3 + ev.len() as int);
                assert(w.subrange(3, 3 + ev.len() as int) =~= ev);
            }
            lemma_parse_str_encoding(b, pos + 3, value);
            let mid = pos + 3 + ev.len() as int;
            assert(b.subrange(mid, mid + ek.len() as int) == ek) by {
                lemma_window_subrange(b, pos, w, 3 + ev.len() as int, 3 + ev.len() as int + ek.len() as int);
                assert(w.subrange(3 + ev.len() as int, 3 + ev.len() as int + ek.len() as int) =~= ek);
            }
            lemma_parse_str_encoding(b, mid, key);
        },
        CommandModel::Remove { key } => {
            let ek = spec_encode_str(key);
            assert(w[0] == 0x92 && w[1] == 0x01 && w[2] == 0x91);
            assert(b.subrange(pos + 3, pos + 3 + ek.len() as int) == ek) by {
                lemma_window_subrange(b, pos, w, 3, 3 + ek.len() as int);
                assert(w.subrange(3, 3 + ek.len() as int) =~= ek);
            }
            lemma_parse_str_encoding(b, pos + 3, key);
        },
    }
}

/// Every legal record survives a decode and re-encode: parsing a canonical
/// record yields a command whose encoding is the original bytes.
pub proof fn lemma_record_bytes_round_trip(bytes: Seq<u8>, c: CommandModel)
    requires
        command_encodable(c),
        bytes == spec_encode_command(c),
    ensures
        parse_command(bytes, 0) matches Some((c2, end)) && c2 == c && end == bytes.len()
            && spec_encode_command(c2) == bytes,
{
    assert(bytes.subrange(0, spec_encode_command(c).len() as int) =~= bytes);
    lemma_parse_command_encoding(bytes, 0, c);
}

/// The value of a `Put` record that starts at `pos` can be decoded standalone
/// at `pos + VALUE_OFFSET`, without touching the key.
pub proof fn lemma_value_at_offset(b: Seq<u8>, pos: int, value: Seq<char>, key: Seq<char>)
    requires
        command_encodable(CommandModel::Put { value, key }),
        0 <= pos,
        pos + spec_encode_command(CommandModel::Put { value, key }).len() <= b.len(),
        b.subrange(pos, pos + spec_encode_command(CommandModel::Put { value, key }).len())
            == spec_encode_command(CommandModel::Put { value, key }),
    ensures
        parse_str(b, pos + VALUE_OFFSET) matches Some((v, end)) && v == value,
{
    let c = CommandModel::Put { value, key };
    let w = spec_encode_command(c);
    let ev = spec_encode_str(value);
    assert(b.subrange(pos + 3, pos + 3 + ev.len() as int) == ev) by {
        lemma_window_subrange(b, pos, w, 3, 3 + ev.len() as int);
        assert(w.subrange(3, 3 + ev.len() as int) =~= ev);
    }
    lemma_parse_str_encoding(b, pos + 3, value);
}

} // verus!
