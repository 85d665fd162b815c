//! The command protocol: a self-describing, length-delimited wire
//! encoding for client commands and server responses. Every field is
//! length-prefixed, so a frame can always be re-framed from a byte
//! stream; a bare concatenation of values would not allow that. Decoding
//! rejects unknown tags, truncated fields, malformed text and trailing
//! bytes as `ProtocolError` values rather than crashing the handler.
//!
//! Encoding is symmetric: decoding an encoded message yields an equal
//! message, stated over the specification codec and proved below.

use vstd::prelude::*;
use vstd::string::*;
use vstd::utf8::{valid_utf8, decode_utf8, encode_utf8};
use crate::errors::ProtocolError;
use crate::text::string_from_utf8;

verus! {

/// A client command, one variant per operation.
pub enum Command {
    ListFiles,
    Upload { name: String, bytes: Vec<u8> },
    Download { name: String },
    Delete { name: String },
    Search { substring: String },
}

/// The mathematical value of a `Command`.
pub enum CommandModel {
    ListFiles,
    Upload { name: Seq<char>, bytes: Seq<u8> },
    Download { name: Seq<char> },
    Delete { name: Seq<char> },
    Search { substring: Seq<char> },
}

impl View for Command {
    type V = CommandModel;

    open spec fn view(&self) -> CommandModel {
        match self {
            Command::ListFiles => CommandModel::ListFiles,
            Command::Upload { name, bytes } => CommandModel::Upload {
                name: name@,
                bytes: bytes@,
            },
            Command::Download { name } => CommandModel::Download { name: name@ },
            Command::Delete { name } => CommandModel::Delete { name: name@ },
            Command::Search { substring } => CommandModel::Search { substring: substring@ },
        }
    }
}

/// A server response: a human-readable message, a byte payload only for
/// a download, and a listing payload only for a list or a search.
pub struct Response {
    pub message: String,
    pub bytes: Option<Vec<u8>>,
    pub names: Option<Vec<String>>,
}

/// The names of a listing, viewed as character sequences.
pub open spec fn names_view(ns: Seq<String>) -> Seq<Seq<char>> {
    ns.map_values(|s: String| s@)
}

/// The mathematical value of a `Response`.
pub struct ResponseModel {
    pub message: Seq<char>,
    pub bytes: Option<Seq<u8>>,
    pub names: Option<Seq<Seq<char>>>,
}

impl View for Response {
    type V = ResponseModel;

    open spec fn view(&self) -> ResponseModel {
        ResponseModel {
            message: self.message@,
            bytes: match self.bytes {
                Option::Some(b) => Option::Some(b@),
                Option::None => Option::None,
            },
            names: match self.names {
                Option::Some(ns) => Option::Some(names_view(ns@)),
                Option::None => Option::None,
            },
        }
    }
}

/// The four big-endian bytes of `n`.
pub open spec fn spec_u32_bytes(n: u32) -> Seq<u8> {
    seq![
        (((n as int) / 0x100_0000) % 0x100) as u8,
        (((n as int) / 0x1_0000) % 0x100) as u8,
        (((n as int) / 0x100) % 0x100) as u8,
        ((n as int) % 0x100) as u8,
    ]
}

/// The value carried by four big-endian bytes.
pub open spec fn spec_u32_of(b0: u8, b1: u8, b2: u8, b3: u8) -> u32 {
    ((b0 as int) * 0x100_0000 + (b1 as int) * 0x1_0000 + (b2 as int) * 0x100 + (b3 as int)) as u32
}

/// Reading back the four bytes of `n` yields `n`.
pub proof fn lemma_u32_bytes_of(n: u32)
    ensures
        spec_u32_of(
            spec_u32_bytes(n)[0],
            spec_u32_bytes(n)[1],
            spec_u32_bytes(n)[2],
            spec_u32_bytes(n)[3],
        ) == n,
{
    assert(n == ((n / 0x100_0000) % 0x100) * 0x100_0000 + ((n / 0x1_0000) % 0x100) * 0x1_0000 + ((n
        / 0x100) % 0x100) * 0x100 + (n % 0x100)) by (bit_vector);
}

/// Writing back the value of four bytes yields the same bytes.
pub proof fn lemma_u32_of_bytes(b0: u8, b1: u8, b2: u8, b3: u8)
    ensures
        spec_u32_bytes(spec_u32_of(b0, b1, b2, b3)) == seq![b0, b1, b2, b3],
{
    let n = spec_u32_of(b0, b1, b2, b3);
    assert((((n as int) / 0x100_0000) % 0x100) as u8 == b0 && (((n as int) / 0x1_0000) % 0x100)
        as u8 == b1 && (((n as int) / 0x100) % 0x100) as u8 == b2 && ((n as int) % 0x100) as u8
        == b3) by {
        let v = (b0 as int) * 0x100_0000 + (b1 as int) * 0x1_0000 + (b2 as int) * 0x100 + (
        b3 as int);
        assert(0 <= v <= 0xFFFF_FFFF);
        assert(n as int == v);
        assert(v / 0x100_0000 == b0 as int) by (nonlinear_arith)
            requires
                v == (b0 as int) * 0x100_0000 + (b1 as int) * 0x1_0000 + (b2 as int) * 0x100 + (
                b3 as int),
                0 <= (b0 as int) && (b0 as int) < 0x100,
                0 <= (b1 as int) && (b1 as int) < 0x100,
                0 <= (b2 as int) && (b2 as int) < 0x100,
                0 <= (b3 as int) && (b3 as int) < 0x100,
        ;
        assert((v / 0x1_0000) % 0x100 == b1 as int) by (nonlinear_arith)
            requires
                v == (b0 as int) * 0x100_0000 + (b1 as int) * 0x1_0000 + (b2 as int) * 0x100 + (
                b3 as int),
                0 <= (b0 as int) && (b0 as int) < 0x100,
                0 <= (b1 as int) && (b1 as int) < 0x100,
                0 <= (b2 as int) && (b2 as int) < 0x100,
                0 <= (b3 as int) && (b3 as int) < 0x100,
        ;
        assert((v / 0x100) % 0x100 == b2 as int) by (nonlinear_arith)
            requires
                v == (b0 as int) * 0x100_0000 + (b1 as int) * 0x1_0000 + (b2 as int) * 0x100 + (
                b3 as int),
                0 <= (b0 as int) && (b0 as int) < 0x100,
                0 <= (b1 as int) && (b1 as int) < 0x100,
                0 <= (b2 as int) && (b2 as int) < 0x100,
                0 <= (b3 as int) && (b3 as int) < 0x100,
        ;
        assert(v % 0x100 == b3 as int) by (nonlinear_arith)
            requires
                v == (b0 as int) * 0x100_0000 + (b1 as int) * 0x1_0000 + (b2 as int) * 0x100 + (
                b3 as int),
                0 <= (b0 as int) && (b0 as int) < 0x100,
                0 <= (b1 as int) && (b1 as int) < 0x100,
                0 <= (b2 as int) && (b2 as int) < 0x100,
                0 <= (b3 as int) && (b3 as int) < 0x100,
        ;
    }
    assert(spec_u32_bytes(n) =~= seq![b0, b1, b2, b3]);
}

/// A length-prefixed run of bytes.
pub open spec fn spec_chunk(data: Seq<u8>) -> Seq<u8> {
    spec_u32_bytes(data.len() as u32) + data
}

/// A length-prefixed text field, carried as UTF-8.
pub open spec fn spec_str_chunk(s: Seq<char>) -> Seq<u8> {
    spec_chunk(encode_utf8(s))
}

/// Reads four big-endian bytes at `pos`; `None` when they are not there.
pub open spec fn spec_take_u32(b: Seq<u8>, pos: int) -> Option<(u32, int)> {
    if 0 <= pos && pos + 4 <= b.len() {
        Option::Some((spec_u32_of(b[pos], b[pos + 1], b[pos + 2], b[pos + 3]), pos + 4))
    } else {
        Option::None
    }
}

/// Reads a length-prefixed run of bytes at `pos`.
pub open spec fn spec_take_chunk(b: Seq<u8>, pos: int) -> Option<(Seq<u8>, int)> {
    match spec_take_u32(b, pos) {
        Option::Some((n, p)) => if p + n <= b.len() {
            Option::Some((b.subrange(p, p + n), p + n))
        } else {
            Option::None
        },
        Option::None => Option::None,
    }
}

/// Reads a length-prefixed text field at `pos`.
pub open spec fn spec_take_str(b: Seq<u8>, pos: int) -> Option<(Seq<char>, int)> {
    match spec_take_chunk(b, pos) {
        Option::Some((data, p)) => if valid_utf8(data) {
            Option::Some((decode_utf8(data), p))
        } else {
            Option::None
        },
        Option::None => Option::None,
    }
}

/// Reading a chunk placed at `pos` yields its payload and stops right
/// after it.
pub proof fn lemma_take_chunk_at(b: Seq<u8>, pos: int, data: Seq<u8>)
    requires
        0 <= pos,
        data.len() <= u32::MAX,
        pos + 4 + data.len() <= b.len(),
        b.subrange(pos, pos + 4 + data.len() as int) == spec_chunk(data),
    ensures
        spec_take_chunk(b, pos) == Option::Some((data, pos + 4 + data.len() as int)),
{
    let chunk = spec_chunk(data);
    let lenb = spec_u32_bytes(data.len() as u32);
    assert(chunk.len() == 4 + data.len());
    assert forall|k: int| 0 <= k < 4 implies b[pos + k] == lenb[k] by {
        assert(b.subrange(pos, pos + 4 + data.len() as int)[k] == b[pos + k]);
        assert(chunk[k] == lenb[k]);
    }
    lemma_u32_bytes_of(data.len() as u32);
    assert(spec_u32_of(b[pos], b[pos + 1], b[pos + 2], b[pos + 3]) == data.len() as u32);
    assert(spec_take_u32(b, pos) == Option::Some((data.len() as u32, pos + 4)));
    assert(b.subrange(pos + 4, pos + 4 + data.len() as int) =~= data) by {
        assert forall|k: int| 0 <= k < data.len() implies b[pos + 4 + k] == data[k] by {
            assert(b.subrange(pos, pos + 4 + data.len() as int)[4 + k] == b[pos + 4 + k]);
            assert(chunk[4 + k] == data[k]);
        }
    }
}

/// Reading a text field placed at `pos` yields its characters.
pub proof fn lemma_take_str_at(b: Seq<u8>, pos: int, s: Seq<char>)
    requires
        0 <= pos,
        encode_utf8(s).len() <= u32::MAX,
        pos + 4 + encode_utf8(s).len() <= b.len(),
        b.subrange(pos, pos + 4 + encode_utf8(s).len() as int) == spec_str_chunk(s),
    ensures
        spec_take_str(b, pos) == Option::Some((s, pos + 4 + encode_utf8(s).len() as int)),
{
    broadcast use vstd::utf8::encode_utf8_valid_utf8, vstd::utf8::encode_utf8_decode_utf8;

    lemma_take_chunk_at(b, pos, encode_utf8(s));
}

/// Whether every field of `c` fits its length prefix.
pub open spec fn spec_cmd_fits(c: CommandModel) -> bool {
    match c {
        CommandModel::ListFiles => true,
        CommandModel::Upload { name, bytes } => encode_utf8(name).len() <= u32::MAX && bytes.len()
            <= u32::MAX,
        CommandModel::Download { name } => encode_utf8(name).len() <= u32::MAX,
        CommandModel::Delete { name } => encode_utf8(name).len() <= u32::MAX,
        CommandModel::Search { substring } => encode_utf8(substring).len() <= u32::MAX,
    }
}

/// The encoding of a command: a tag byte, then its length-prefixed
/// fields.
pub open spec fn spec_encode_command(c: CommandModel) -> Seq<u8> {
    match c {
        CommandModel::ListFiles => seq![1u8],
        CommandModel::Upload { name, bytes } => seq![2u8] + spec_str_chunk(name) + spec_chunk(
            bytes,
        ),
        CommandModel::Download { name } => seq![3u8] + spec_str_chunk(name),
        CommandModel::Delete { name } => seq![4u8] + spec_str_chunk(name),
        CommandModel::Search { substring } => seq![5u8] + spec_str_chunk(substring),
    }
}

/// The decoding of a command: `None` for an unknown tag, a truncated or
/// overlong field, malformed text, or trailing bytes.
pub open spec fn spec_decode_command(b: Seq<u8>) -> Option<CommandModel> {
    if b.len() < 1 {
        Option::None
    } else if b[0] == 1 {
        if b.len() == 1 {
            Option::Some(CommandModel::ListFiles)
        } else {
            Option::None
        }
    } else if b[0] == 2 {
        match spec_take_str(b, 1) {
            Option::Some((name, p)) => match spec_take_chunk(b, p) {
                Option::Some((bytes, p2)) => if p2 == b.len() {
                    Option::Some(CommandModel::Upload { name, bytes })
                } else {
                    Option::None
                },
                Option::None => Option::None,
            },
            Option::None => Option::None,
        }
    } else if b[0] == 3 {
        match spec_take_str(b, 1) {
            Option::Some((name, p)) => if p == b.len() {
                Option::Some(CommandModel::Download { name })
            } else {
                Option::None
            },
            Option::None => Option::None,
        }
    } else if b[0] == 4 {
        match spec_take_str(b, 1) {
            Option::Some((name, p)) => if p == b.len() {
                Option::Some(CommandModel::Delete { name })
            } else {
                Option::None
            },
            Option::None => Option::None,
        }
    } else if b[0] == 5 {
        match spec_take_str(b, 1) {
            Option::Some((substring, p)) => if p == b.len() {
                Option::Some(CommandModel::Search { substring })
            } else {
                Option::None
            },
            Option::None => Option::None,
        }
    } else {
        Option::None
    }
}

/// Reads four big-endian bytes at `pos`.
fn take_u32(b: &[u8], pos: usize) -> (r: Option<(u32, usize)>)
    ensures
        match spec_take_u32(b@, pos as int) {
            Option::Some((n, p)) => r is Some && (r->0).0 == n && (r->0).1 == p,
            Option::None => r is None,
        },
{
    if pos <= b.len() && b.len() - pos >= 4 {
        let n = (b[pos] as u32) * 0x100_0000 + (b[pos + 1] as u32) * 0x1_0000 + (b[pos + 2] as u32)
            * 0x100 + (b[pos + 3] as u32);
        proof {
            assert(n == spec_u32_of(
                b@[pos as int],
                b@[pos as int + 1],
                b@[pos as int + 2],
                b@[pos as int + 3],
            ));
        }
        Some((n, pos + 4))
    } else {
        None
    }
}

/// Copies `b[start..end]` into a fresh vector.
fn copy_range(b: &[u8], start: usize, end: usize) -> (r: Vec<u8>)
    requires
        start <= end <= b@.len(),
    ensures
        r@ == b@.subrange(start as int, end as int),
{
    let mut r: Vec<u8> = Vec::new();
    let mut i: usize = start;
    while i < end
        invariant
            start <= i <= end <= b@.len(),
            r@ == b@.subrange(start as int, i as int),
        decreases end - i,
    {
        r.push(b[i]);
        proof {
            assert(b@.subrange(start as int, i as int).push(b@[i as int]) =~= b@.subrange(
                start as int,
                i + 1 as int,
            ));
        }
        i = i + 1;
    }
    r
}

/// Reads a length-prefixed run of bytes at `pos`.
fn take_chunk(b: &[u8], pos: usize) -> (r: Option<(Vec<u8>, usize)>)
    ensures
        match spec_take_chunk(b@, pos as int) {
            Option::Some((d, p)) => r is Some && (r->0).0@ == d && (r->0).1 == p,
            Option::None => r is None,
        },
{
    match take_u32(b, pos) {
        None => None,
        Some((n, p)) => {
            let n_us = n as usize;
            if n_us <= b.len() - p {
                let data = copy_range(b, p, p + n_us);
                Some((data, p + n_us))
            } else {
                None
            }
        },
    }
}

/// Reads a length-prefixed text field at `pos`.
fn take_str(b: &[u8], pos: usize) -> (r: Option<(String, usize)>)
    ensures
        match spec_take_str(b@, pos as int) {
            Option::Some((s, p)) => r is Some && (r->0).0@ == s && (r->0).1 == p,
            Option::None => r is None,
        },
{
    match take_chunk(b, pos) {
        None => None,
        Some((data, p)) => match string_from_utf8(data) {
            Some(s) => Some((s, p)),
            None => None,
        },
    }
}

/// Appends the four big-endian bytes of `n`.
fn push_u32(out: &mut Vec<u8>, n: u32)
    ensures
        final(out)@ == old(out)@ + spec_u32_bytes(n),
{
    out.push(((n / 0x100_0000) % 0x100) as u8);
    out.push(((n / 0x1_0000) % 0x100) as u8);
    out.push(((n / 0x100) % 0x100) as u8);
    out.push((n % 0x100) as u8);
    proof {
        assert(out@ =~= old(out)@ + spec_u32_bytes(n));
    }
}

/// Appends a run of bytes.
fn push_bytes(out: &mut Vec<u8>, data: &[u8])
    ensures
        final(out)@ == old(out)@ + data@,
{
    let mut i: usize = 0;
    while i < data.len()
        invariant
            i <= data@.len(),
            out@ == old(out)@ + data@.subrange(0, i as int),
        decreases data.len() - i,
    {
        out.push(data[i]);
        proof {
            assert(old(out)@ + data@.subrange(0, i as int).push(data@[i as int]) =~= old(out)@
                + data@.subrange(0, i + 1 as int));
            assert((old(out)@ + data@.subrange(0, i as int)).push(data@[i as int]) =~= old(out)@
                + data@.subrange(0, i as int).push(data@[i as int]));
        }
        i = i + 1;
    }
    proof {
        assert(data@.subrange(0, data@.len() as int) =~= data@);
    }
}

/// Appends a length-prefixed run of bytes; fails, leaving `out`
/// untouched, when the run is too long for its prefix.
fn push_chunk(out: &mut Vec<u8>, data: &[u8]) -> (ok: bool)
    ensures
        ok == (data@.len() <= u32::MAX),
        ok ==> final(out)@ == old(out)@ + spec_chunk(data@),
        !ok ==> final(out)@ == old(out)@,
{
    if data.len() > u32::MAX as usize {
        return false;
    }
    push_u32(out, data.len() as u32);
    push_bytes(out, data);
    proof {
        assert((old(out)@ + spec_u32_bytes(data@.len() as u32)) + data@ =~= old(out)@ + spec_chunk(
            data@,
        ));
    }
    true
}

/// Appends a length-prefixed text field as UTF-8.
fn push_str_chunk(out: &mut Vec<u8>, s: &str) -> (ok: bool)
    ensures
        ok == (encode_utf8(s@).len() <= u32::MAX),
        ok ==> final(out)@ == old(out)@ + spec_str_chunk(s@),
        !ok ==> final(out)@ == old(out)@,
{
    push_chunk(out, s.as_bytes())
}

/// Encodes a command; fails exactly when a field is too long for its
/// length prefix.
pub fn encode_command(c: &Command) -> (r: Result<Vec<u8>, ProtocolError>)
    ensures
        r is Ok <==> spec_cmd_fits(c@),
        r is Ok ==> r->Ok_0@ == spec_encode_command(c@),
{
    let mut out: Vec<u8> = Vec::new();
    match c {
        Command::ListFiles => {
            out.push(1u8);
            proof {
                assert(out@ =~= seq![1u8]);
            }
            Ok(out)
        },
        Command::Upload { name, bytes } => {
            out.push(2u8);
            proof {
                assert(out@ =~= seq![2u8]);
            }
            if !push_str_chunk(&mut out, name.as_str()) {
                return Err(ProtocolError::Oversize);
            }
            if !push_chunk(&mut out, bytes.as_slice()) {
                return Err(ProtocolError::Oversize);
            }
            proof {
                assert(out@ =~= seq![2u8] + spec_str_chunk(name@) + spec_chunk(bytes@));
            }
            Ok(out)
        },
        Command::Download { name } => {
            out.push(3u8);
            proof {
                assert(out@ =~= seq![3u8]);
            }
            if !push_str_chunk(&mut out, name.as_str()) {
                return Err(ProtocolError::Oversize);
            }
            Ok(out)
        },
        Command::Delete { name } => {
            out.push(4u8);
            proof {
                assert(out@ =~= seq![4u8]);
            }
            if !push_str_chunk(&mut out, name.as_str()) {
                return Err(ProtocolError::Oversize);
            }
            Ok(out)
        },
        Command::Search { substring } => {
            out.push(5u8);
            proof {
                assert(out@ =~= seq![5u8]);
            }
            if !push_str_chunk(&mut out, substring.as_str()) {
                return Err(ProtocolError::Oversize);
            }
            Ok(out)
        },
    }
}

/// Decodes a command; rejects what `spec_decode_command` rejects.
pub fn decode_command(b: &[u8]) -> (r: Result<Command, ProtocolError>)
    ensures
        spec_decode_command(b@) is Some ==> r is Ok && r->Ok_0@ == spec_decode_command(b@)->0,
        spec_decode_command(b@) is None ==> r is Err,
{
    if b.len() == 0 {
        return Err(ProtocolError::Truncated);
    }
    let tag = b[0];
    if tag == 1 {
        if b.len() == 1 {
            Ok(Command::ListFiles)
        } else {
            Err(ProtocolError::TrailingBytes)
        }
    } else if tag == 2 {
        match take_str(b, 1) {
            None => Err(ProtocolError::BadText),
            Some((name, p)) => match take_chunk(b, p) {
                None => Err(ProtocolError::Truncated),
                Some((bytes, p2)) => {
                    if p2 == b.len() {
                        Ok(Command::Upload { name, bytes })
                    } else {
                        Err(ProtocolError::TrailingBytes)
                    }
                },
            },
        }
    } else if tag == 3 {
        match take_str(b, 1) {
            None => Err(ProtocolError::BadText),
            Some((name, p)) => {
                if p == b.len() {
                    Ok(Command::Download { name })
                } else {
                    Err(ProtocolError::TrailingBytes)
                }
            },
        }
    } else if tag == 4 {
        match take_str(b, 1) {
            None => Err(ProtocolError::BadText),
            Some((name, p)) => {
                if p == b.len() {
                    Ok(Command::Delete { name })
                } else {
                    Err(ProtocolError::TrailingBytes)
                }
            },
        }
    } else if tag == 5 {
        match take_str(b, 1) {
            None => Err(ProtocolError::BadText),
            Some((substring, p)) => {
                if p == b.len() {
                    Ok(Command::Search { substring })
                } else {
                    Err(ProtocolError::TrailingBytes)
                }
            },
        }
    } else {
        Err(ProtocolError::UnknownTag)
    }
}

/// Decoding an encoded command yields the command back: the codec is
/// symmetric for every command whose fields fit their length prefixes.
pub proof fn lemma_command_round_trip(c: CommandModel)
    requires
        spec_cmd_fits(c),
    ensures
        spec_decode_command(spec_encode_command(c)) == Option::Some(c),
{
    let b = spec_encode_command(c);
    match c {
        CommandModel::ListFiles => {
            assert(b.len() == 1 && b[0] == 1);
        },
        CommandModel::Upload { name, bytes } => {
            let nl = encode_utf8(name).len() as int;
            let sc = spec_str_chunk(name);
            let bc = spec_chunk(bytes);
            assert(sc.len() == 4 + nl);
            assert(bc.len() == 4 + bytes.len());
            assert(b.len() == 1 + sc.len() + bc.len());
            assert(b[0] == 2);
            assert(b.subrange(1, 1 + 4 + nl) =~= sc);
            lemma_take_str_at(b, 1, name);
            assert(b.subrange(1 + 4 + nl, 1 + 4 + nl + 4 + bytes.len() as int) =~= bc);
            lemma_take_chunk_at(b, 1 + 4 + nl, bytes);
        },
        CommandModel::Download { name } => {
            let nl = encode_utf8(name).len() as int;
            let sc = spec_str_chunk(name);
            assert(sc.len() == 4 + nl);
            assert(b.len() == 1 + sc.len());
            assert(b[0] == 3);
            assert(b.subrange(1, 1 + 4 + nl) =~= sc);
            lemma_take_str_at(b, 1, name);
        },
        CommandModel::Delete { name } => {
            let nl = encode_utf8(name).len() as int;
            let sc = spec_str_chunk(name);
            assert(sc.len() == 4 + nl);
            assert(b.len() == 1 + sc.len());
            assert(b[0] == 4);
            assert(b.subrange(1, 1 + 4 + nl) =~= sc);
            lemma_take_str_at(b, 1, name);
        },
        CommandModel::Search { substring } => {
            let nl = encode_utf8(substring).len() as int;
            let sc = spec_str_chunk(substring);
            assert(sc.len() == 4 + nl);
            assert(b.len() == 1 + sc.len());
            assert(b[0] == 5);
            assert(b.subrange(1, 1 + 4 + nl) =~= sc);
            lemma_take_str_at(b, 1, substring);
        },
    }
}

/// Whether every field of `r` fits its length prefix.
pub open spec fn spec_resp_fits(r: ResponseModel) -> bool {
    &&& encode_utf8(r.message).len() <= u32::MAX
    &&& match r.bytes {
        Option::Some(b) => b.len() <= u32::MAX,
        Option::None => true,
    }
    &&& match r.names {
        Option::Some(ns) => ns.len() <= u32::MAX && (forall|i: int|
            0 <= i < ns.len() ==> encode_utf8(#[trigger] ns[i]).len() <= u32::MAX),
        Option::None => true,
    }
}

/// The names of a listing, each as a length-prefixed text field.
pub open spec fn spec_encode_names(ns: Seq<Seq<char>>) -> Seq<u8>
    decreases ns.len(),
{
    if ns.len() == 0 {
        Seq::empty()
    } else {
        spec_str_chunk(ns.first()) + spec_encode_names(ns.drop_first())
    }
}

/// The encoding of a response: the message, then the optional byte
/// payload, then the optional listing, each behind a presence byte.
pub open spec fn spec_encode_response(r: ResponseModel) -> Seq<u8> {
    spec_str_chunk(r.message) + (match r.bytes {
        Option::None => seq![0u8],
        Option::Some(b) => seq![1u8] + spec_chunk(b),
    }) + (match r.names {
        Option::None => seq![0u8],
        Option::Some(ns) => seq![1u8] + spec_u32_bytes(ns.len() as u32) + spec_encode_names(ns),
    })
}

/// Reads `count` length-prefixed text fields at `pos`.
pub open spec fn spec_decode_names(b: Seq<u8>, pos: int, count: int) -> Option<
    (Seq<Seq<char>>, int),
>
    decreases count,
{
    if count <= 0 {
        Option::Some((Seq::empty(), pos))
    } else {
        match spec_take_str(b, pos) {
            Option::None => Option::None,
            Option::Some((s, p)) => match spec_decode_names(b, p, count - 1) {
                Option::None => Option::None,
                Option::Some((ss, p2)) => Option::Some((seq![s] + ss, p2)),
            },
        }
    }
}

/// The decoding of a response: `None` for a truncated field, a presence
/// byte other than 0 or 1, malformed text, or trailing bytes.
pub open spec fn spec_decode_response(b: Seq<u8>) -> Option<ResponseModel> {
    match spec_take_str(b, 0) {
        Option::None => Option::None,
        Option::Some((message, p)) => if p + 1 > b.len() {
            Option::None
        } else if b[p] == 0 {
            spec_decode_response_names(b, p + 1, message, Option::None)
        } else if b[p] == 1 {
            match spec_take_chunk(b, p + 1) {
                Option::None => Option::None,
                Option::Some((bytes, p2)) => spec_decode_response_names(
                    b,
                    p2,
                    message,
                    Option::Some(bytes),
                ),
            }
        } else {
            Option::None
        },
    }
}

/// The listing part of a response, starting at its presence byte.
pub open spec fn spec_decode_response_names(
    b: Seq<u8>,
    pos: int,
    message: Seq<char>,
    bytes: Option<Seq<u8>>,
) -> Option<ResponseModel> {
    if pos + 1 > b.len() {
        Option::None
    } else if b[pos] == 0 {
        if pos + 1 == b.len() {
            Option::Some(ResponseModel { message, bytes, names: Option::None })
        } else {
            Option::None
        }
    } else if b[pos] == 1 {
        match spec_take_u32(b, pos + 1) {
            Option::None => Option::None,
            Option::Some((count, p)) => match spec_decode_names(b, p, count as int) {
                Option::None => Option::None,
                Option::Some((ns, p2)) => if p2 == b.len() {
                    Option::Some(ResponseModel { message, bytes, names: Option::Some(ns) })
                } else {
                    Option::None
                },
            },
        }
    } else {
        Option::None
    }
}

/// Reads `count` text fields at `pos`.
fn decode_names(b: &[u8], pos: usize, count: u32) -> (r: Option<(Vec<String>, usize)>)
    ensures
        match spec_decode_names(b@, pos as int, count as int) {
            Option::Some((ss, p)) => r is Some && (r->0).0@.map_values(|s: String| s@) == ss && (
            r->0).1 == p,
            Option::None => r is None,
        },
{
    let mut items: Vec<String> = Vec::new();
    let mut cur = pos;
    let mut k: u32 = 0;
    proof {
        assert(items@.map_values(|s: String| s@) =~= Seq::<Seq<char>>::empty());
    }
    while k < count
        invariant
            k <= count,
            spec_decode_names(b@, pos as int, count as int) == (match spec_decode_names(
                b@,
                cur as int,
                (count - k) as int,
            ) {
                Option::Some((ss, p)) => Option::Some(
                    (items@.map_values(|s: String| s@) + ss, p),
                ),
                Option::None => Option::<(Seq<Seq<char>>, int)>::None,
            }),
        decreases count - k,
    {
        let ghost itemspre = items@;
        match take_str(b, cur) {
            None => {
                return None;
            },
            Some((s, p)) => {
                items.push(s);
                proof {
                    let f = |t: String| t@;
                    assert(items@.map_values(f) =~= itemspre.map_values(f).push(s@));
                    assert forall|ss2: Seq<Seq<char>>|
                        (itemspre.map_values(f) + (seq![s@] + ss2)) =~= (items@.map_values(f)
                            + ss2) by {
                    }
                }
                cur = p;
                k = k + 1;
            },
        }
    }
    proof {
        assert(items@.map_values(|s: String| s@) + Seq::<Seq<char>>::empty() =~= items@.map_values(
            |s: String| s@,
        ));
    }
    Some((items, cur))
}

/// Decodes a response; rejects what `spec_decode_response` rejects.
pub fn decode_response(b: &[u8]) -> (r: Result<Response, ProtocolError>)
    ensures
        spec_decode_response(b@) is Some ==> r is Ok && r->Ok_0@ == spec_decode_response(b@)->0,
        spec_decode_response(b@) is None ==> r is Err,
{
    let (message, p) = match take_str(b, 0) {
        None => {
            return Err(ProtocolError::BadText);
        },
        Some(x) => x,
    };
    if p >= b.len() {
        return Err(ProtocolError::Truncated);
    }
    let flag_bytes = b[p];
    let (bytes, p2): (Option<Vec<u8>>, usize) = if flag_bytes == 0 {
        (None, p + 1)
    } else if flag_bytes == 1 {
        match take_chunk(b, p + 1) {
            None => {
                return Err(ProtocolError::Truncated);
            },
            Some((data, q)) => (Some(data), q),
        }
    } else {
        return Err(ProtocolError::UnknownTag);
    };
    if p2 >= b.len() {
        return Err(ProtocolError::Truncated);
    }
    let flag_names = b[p2];
    if flag_names == 0 {
        if p2 + 1 == b.len() {
            Ok(Response { message, bytes, names: None })
        } else {
            Err(ProtocolError::TrailingBytes)
        }
    } else if flag_names == 1 {
        let (count, p3) = match take_u32(b, p2 + 1) {
            None => {
                return Err(ProtocolError::Truncated);
            },
            Some(x) => x,
        };
        match decode_names(b, p3, count) {
            None => Err(ProtocolError::BadText),
            Some((names, p4)) => {
                if p4 == b.len() {
                    Ok(Response { message, bytes, names: Some(names) })
                } else {
                    Err(ProtocolError::TrailingBytes)
                }
            },
        }
    } else {
        Err(ProtocolError::UnknownTag)
    }
}

/// Encodes a response; fails exactly when a field is too long for its
/// length prefix.
pub fn encode_response(resp: &Response) -> (r: Result<Vec<u8>, ProtocolError>)
    ensures
        r is Ok <==> spec_resp_fits(resp@),
        r is Ok ==> r->Ok_0@ == spec_encode_response(resp@),
{
    let mut out: Vec<u8> = Vec::new();
    if !push_str_chunk(&mut out, resp.message.as_str()) {
        return Err(ProtocolError::Oversize);
    }
    let ghost part1 = out@;
    match &resp.bytes {
        None => {
            out.push(0u8);
            proof {
                assert(out@ =~= part1 + seq![0u8]);
            }
        },
        Some(data) => {
            out.push(1u8);
            if !push_chunk(&mut out, data.as_slice()) {
                return Err(ProtocolError::Oversize);
            }
            proof {
                assert(out@ =~= part1 + (seq![1u8] + spec_chunk(data@)));
            }
        },
    }
    let ghost part2 = out@;
    match &resp.names {
        None => {
            out.push(0u8);
            proof {
                assert(out@ =~= part2 + seq![0u8]);
                assert(out@ =~= spec_encode_response(resp@));
            }
        },
        Some(ns) => {
            out.push(1u8);
            if ns.len() > u32::MAX as usize {
                return Err(ProtocolError::Oversize);
            }
            push_u32(&mut out, ns.len() as u32);
            let ghost base = out@;
            let ghost nsv = ns@.map_values(|s: String| s@);
            let mut i: usize = 0;
            proof {
                assert(nsv.subrange(0, 0) =~= Seq::<Seq<char>>::empty());
                assert(base + spec_encode_names(nsv.subrange(0, 0)) =~= base);
            }
            while i < ns.len()
                invariant
                    i <= ns@.len(),
                    nsv == ns@.map_values(|s: String| s@),
                    nsv.len() == ns@.len(),
                    resp@.names == Option::Some(nsv),
                    nsv.len() <= u32::MAX,
                    encode_utf8(resp@.message).len() <= u32::MAX,
                    (resp@.bytes is Some ==> resp@.bytes->0.len() <= u32::MAX),
                    out@ == base + spec_encode_names(nsv.subrange(0, i as int)),
                    forall|j: int|
                        0 <= j < i ==> encode_utf8(#[trigger] nsv[j]).len() <= u32::MAX,
                decreases ns.len() - i,
            {
                let ghost outpre = out@;
                if !push_str_chunk(&mut out, ns[i].as_str()) {
                    proof {
                        assert(nsv[i as int] == ns@[i as int]@);
                        assert(encode_utf8(nsv[i as int]).len() > u32::MAX);
                        assert(!spec_resp_fits(resp@));
                    }
                    return Err(ProtocolError::Oversize);
                }
                proof {
                    assert(nsv[i as int] == ns@[i as int]@);
                    lemma_encode_names_snoc(nsv.subrange(0, i as int), nsv[i as int]);
                    assert(nsv.subrange(0, i as int).push(nsv[i as int]) =~= nsv.subrange(
                        0,
                        i + 1 as int,
                    ));
                    assert(out@ =~= base + spec_encode_names(nsv.subrange(0, i + 1 as int)));
                }
                i = i + 1;
            }
            proof {
                assert(nsv.subrange(0, nsv.len() as int) =~= nsv);
                assert(part2 + (seq![1u8] + spec_u32_bytes(ns@.len() as u32)) =~= base);
                assert(out@ =~= part2 + (seq![1u8] + spec_u32_bytes(ns@.len() as u32)
                    + spec_encode_names(nsv)));
                assert(out@ =~= spec_encode_response(resp@));
            }
        },
    }
    Ok(out)
}

/// Appending one name extends the listing encoding by its field.
pub proof fn lemma_encode_names_snoc(ns: Seq<Seq<char>>, s: Seq<char>)
    ensures
        spec_encode_names(ns.push(s)) == spec_encode_names(ns) + spec_str_chunk(s),
    decreases ns.len(),
{
    if ns.len() == 0 {
        let e = Seq::<Seq<char>>::empty();
        assert(spec_encode_names(e) == Seq::<u8>::empty());
        assert(ns.push(s).len() == 1);
        assert(ns.push(s).first() == s);
        assert(ns.push(s).drop_first() =~= e);
        assert(spec_encode_names(ns.push(s)) == spec_str_chunk(s) + spec_encode_names(e));
        assert(spec_str_chunk(s) + Seq::<u8>::empty() =~= spec_encode_names(ns) + spec_str_chunk(
            s,
        ));
    } else {
        assert(ns.push(s).first() == ns.first());
        assert(ns.push(s).drop_first() =~= ns.drop_first().push(s));
        lemma_encode_names_snoc(ns.drop_first(), s);
        assert(spec_str_chunk(ns.first()) + (spec_encode_names(ns.drop_first()) + spec_str_chunk(
            s,
        )) =~= (spec_str_chunk(ns.first()) + spec_encode_names(ns.drop_first())) + spec_str_chunk(
            s,
        ));
    }
}

/// Wraps a payload in a length-delimited frame.
pub fn frame_payload(p: &[u8]) -> (r: Result<Vec<u8>, ProtocolError>)
    ensures
        r is Ok <==> p@.len() <= u32::MAX,
        r is Ok ==> r->Ok_0@ == spec_chunk(p@),
{
    let mut out: Vec<u8> = Vec::new();
    if push_chunk(&mut out, p) {
        proof {
            assert(Seq::<u8>::empty() + spec_chunk(p@) =~= spec_chunk(p@));
        }
        Ok(out)
    } else {
        Err(ProtocolError::Oversize)
    }
}

/// Extracts the first complete frame from a stream buffer; `None` while
/// the frame is still incomplete.
pub fn take_frame(buf: &[u8]) -> (r: Option<(Vec<u8>, usize)>)
    ensures
        match spec_take_chunk(buf@, 0) {
            Option::Some((d, p)) => r is Some && (r->0).0@ == d && (r->0).1 == p,
            Option::None => r is None,
        },
{
    take_chunk(buf, 0)
}

/// Reading a listing placed at `pos` yields its names and stops right
/// after them.
pub proof fn lemma_decode_names_at(b: Seq<u8>, pos: int, ns: Seq<Seq<char>>)
    requires
        0 <= pos,
        forall|i: int| 0 <= i < ns.len() ==> encode_utf8(#[trigger] ns[i]).len() <= u32::MAX,
        pos + spec_encode_names(ns).len() <= b.len(),
        b.subrange(pos, pos + spec_encode_names(ns).len() as int) == spec_encode_names(ns),
    ensures
        spec_decode_names(b, pos, ns.len() as int) == Option::Some(
            (ns, pos + spec_encode_names(ns).len() as int),
        ),
    decreases ns.len(),
{
    let enc = spec_encode_names(ns);
    if ns.len() == 0 {
        assert(Seq::<Seq<char>>::empty() =~= ns);
    } else {
        let first = ns.first();
        let rest = ns.drop_first();
        let fc = spec_str_chunk(first);
        let renc = spec_encode_names(rest);
        assert(enc == fc + renc);
        assert(ns[0] == first);
        assert(encode_utf8(ns[0]).len() <= u32::MAX);
        let fl = fc.len() as int;
        assert(fl == 4 + encode_utf8(first).len());
        assert forall|k: int| 0 <= k < enc.len() implies b[pos + k] == enc[k] by {
            assert(b.subrange(pos, pos + enc.len() as int)[k] == b[pos + k]);
        }
        assert(b.subrange(pos, pos + fl) =~= fc) by {
            assert forall|k: int| 0 <= k < fl implies b[pos + k] == fc[k] by {
                assert(b[pos + k] == enc[k]);
                assert(enc[k] == fc[k]);
            }
        }
        lemma_take_str_at(b, pos, first);
        let p = pos + fl;
        assert(b.subrange(p, p + renc.len() as int) =~= renc) by {
            assert forall|k: int| 0 <= k < renc.len() implies b[p + k] == renc[k] by {
                assert(b[pos + (fl + k)] == enc[fl + k]);
                assert(enc[fl + k] == renc[k]);
            }
        }
        assert forall|i: int| 0 <= i < rest.len() implies encode_utf8(#[trigger] rest[i]).len()
            <= u32::MAX by {
            assert(rest[i] == ns[i + 1]);
        }
        lemma_decode_names_at(b, p, rest);
        assert(seq![first] + rest =~= ns);
    }
}

/// Decoding an encoded response yields the response back: the codec is
/// symmetric for every response whose fields fit their length prefixes.
#[verifier::rlimit(100)]
pub proof fn lemma_response_round_trip(r: ResponseModel)
    requires
        spec_resp_fits(r),
    ensures
        spec_decode_response(spec_encode_response(r)) == Option::Some(r),
{
    let b = spec_encode_response(r);
    let mc = spec_str_chunk(r.message);
    let ml = mc.len() as int;
    let optb: Seq<u8> = match r.bytes {
        Option::None => seq![0u8],
        Option::Some(bb) => seq![1u8] + spec_chunk(bb),
    };
    let optn: Seq<u8> = match r.names {
        Option::None => seq![0u8],
        Option::Some(ns) => seq![1u8] + spec_u32_bytes(ns.len() as u32) + spec_encode_names(ns),
    };
    assert(b == mc + optb + optn);
    assert(b.len() == ml + optb.len() + optn.len());
    assert forall|k: int| 0 <= k < ml implies b[k] == mc[k] by {
        assert(b[k] == (mc + optb + optn)[k]);
    }
    assert forall|k: int| 0 <= k < optb.len() implies b[ml + k] == optb[k] by {
        assert(b[ml + k] == (mc + optb + optn)[ml + k]);
    }
    assert forall|k: int| 0 <= k < optn.len() implies b[ml + optb.len() + k] == optn[k] by {
        assert(b[ml + optb.len() + k] == (mc + optb + optn)[ml + optb.len() + k]);
    }
    assert(b.subrange(0, ml) =~= mc);
    lemma_take_str_at(b, 0, r.message);
    assert(spec_take_str(b, 0) == Option::Some((r.message, ml)));
    let p = ml;
    let p2 = p + optb.len() as int;
    match r.bytes {
        Option::None => {
            assert(optb[0] == 0);
            assert(b[p] == 0);
        },
        Option::Some(bb) => {
            assert(optb[0] == 1);
            assert(b[p] == 1);
            assert(b.subrange(p + 1, p + 1 + 4 + bb.len() as int) =~= spec_chunk(bb)) by {
                assert forall|k: int| 0 <= k < 4 + bb.len() implies b[p + 1 + k] == spec_chunk(
                    bb,
                )[k] by {
                    assert(b[p + (1 + k)] == optb[1 + k]);
                    assert(optb[1 + k] == (seq![1u8] + spec_chunk(bb))[1 + k]);
                }
            }
            lemma_take_chunk_at(b, p + 1, bb);
            assert(spec_take_chunk(b, p + 1) == Option::Some((bb, p2)));
        },
    }
    match r.names {
        Option::None => {
            assert(optn[0] == 0);
            assert(b[p2] == 0);
            assert(p2 + 1 == b.len());
        },
        Option::Some(ns) => {
            let cnt = ns.len() as u32;
            let cb = spec_u32_bytes(cnt);
            let nenc = spec_encode_names(ns);
            assert(optn == seq![1u8] + cb + nenc);
            assert(optn[0] == 1);
            assert(b[p2] == 1);
            assert forall|k: int| 0 <= k < 4 implies b[p2 + 1 + k] == cb[k] by {
                assert(b[p2 + (1 + k)] == optn[1 + k]);
                assert(optn[1 + k] == (seq![1u8] + cb + nenc)[1 + k]);
            }
            lemma_u32_bytes_of(cnt);
            assert(spec_take_u32(b, p2 + 1) == Option::Some((cnt, p2 + 5)));
            assert(b.subrange(p2 + 5, p2 + 5 + nenc.len() as int) =~= nenc) by {
                assert forall|k: int| 0 <= k < nenc.len() implies b[p2 + 5 + k] == nenc[k] by {
                    assert(b[p2 + (5 + k)] == optn[5 + k]);
                    assert(optn[5 + k] == (seq![1u8] + cb + nenc)[5 + k]);
                }
            }
            lemma_decode_names_at(b, p2 + 5, ns);
            assert(p2 + 5 + nenc.len() == b.len());
            assert(spec_decode_names(b, p2 + 5, cnt as int) == Option::Some((ns, b.len() as int)));
        },
    }
}

/// A UTF-8 encoding takes at most four bytes per character.
pub proof fn lemma_encode_utf8_len(s: Seq<char>)
    ensures
        encode_utf8(s).len() <= 4 * s.len(),
    decreases s.len(),
{
    if s.len() == 0 {
    } else {
        assert(vstd::utf8::encode_scalar(s[0] as u32).len() <= 4);
        lemma_encode_utf8_len(s.drop_first());
    }
}

/// If a chunk is read at `pos`, the consumed range is exactly the
/// chunk encoding of its payload.
proof fn lemma_take_chunk_canonical(b: Seq<u8>, pos: int)
    requires
        spec_take_chunk(b, pos) is Some,
    ensures
        ({
            let (d, p) = spec_take_chunk(b, pos)->0;
            &&& d.len() <= u32::MAX
            &&& p == pos + 4 + d.len()
            &&& 0 <= pos && p <= b.len()
            &&& b.subrange(pos, p) == spec_chunk(d)
        }),
{
    let n = (spec_take_u32(b, pos)->0).0;
    let (d, p) = spec_take_chunk(b, pos)->0;
    assert(d == b.subrange(pos + 4, pos + 4 + n));
    assert(d.len() == n);
    lemma_u32_of_bytes(b[pos], b[pos + 1], b[pos + 2], b[pos + 3]);
    assert(spec_u32_bytes(n) == seq![b[pos], b[pos + 1], b[pos + 2], b[pos + 3]]);
    assert(d.len() as u32 == n);
    assert(b.subrange(pos, p) =~= spec_u32_bytes(n) + d) by {
        assert forall|k: int| 0 <= k < 4 + d.len() implies b.subrange(pos, p)[k] == (
        spec_u32_bytes(n) + d)[k] by {
            if k < 4 {
                assert(b.subrange(pos, p)[k] == b[pos + k]);
            } else {
                assert(b.subrange(pos, p)[k] == b[pos + k]);
                assert(d[k - 4] == b[pos + 4 + (k - 4)]);
            }
        }
    }
}

/// If a text field is read at `pos`, the consumed range is exactly the
/// text-field encoding of its characters.
proof fn lemma_take_str_canonical(b: Seq<u8>, pos: int)
    requires
        spec_take_str(b, pos) is Some,
    ensures
        ({
            let (s, p) = spec_take_str(b, pos)->0;
            &&& encode_utf8(s).len() <= u32::MAX
            &&& p == pos + 4 + encode_utf8(s).len()
            &&& 0 <= pos && p <= b.len()
            &&& b.subrange(pos, p) == spec_str_chunk(s)
        }),
{
    broadcast use vstd::utf8::decode_utf8_encode_utf8;

    lemma_take_chunk_canonical(b, pos);
    let (d, p) = spec_take_chunk(b, pos)->0;
    assert(valid_utf8(d));
    assert(encode_utf8(decode_utf8(d)) == d);
}

/// Decoding accepts only encodings: a byte sequence that decodes to a
/// command is exactly that command's encoding, so the wire format is
/// unambiguous.
pub proof fn lemma_command_decode_canonical(b: Seq<u8>)
    requires
        spec_decode_command(b) is Some,
    ensures
        spec_cmd_fits(spec_decode_command(b)->0),
        spec_encode_command(spec_decode_command(b)->0) == b,
{
    let m = spec_decode_command(b)->0;
    if b[0] == 1 {
        assert(b =~= seq![1u8]);
    } else if b[0] == 2 {
        lemma_take_str_canonical(b, 1);
        let (name, p) = spec_take_str(b, 1)->0;
        lemma_take_chunk_canonical(b, p);
        let (bytes, p2) = spec_take_chunk(b, p)->0;
        assert(p2 == b.len());
        assert(b =~= seq![b[0]] + b.subrange(1, p) + b.subrange(p, p2)) by {
            assert forall|k: int| 0 <= k < b.len() implies b[k] == (seq![b[0]] + b.subrange(1, p)
                + b.subrange(p, p2))[k] by {
                if 1 <= k < p {
                    assert(b.subrange(1, p)[k - 1] == b[k]);
                } else if p <= k {
                    assert(b.subrange(p, p2)[k - p] == b[k]);
                }
            }
        }
        assert(spec_encode_command(m) == seq![2u8] + spec_str_chunk(name) + spec_chunk(bytes));
    } else {
        lemma_take_str_canonical(b, 1);
        let (field, p) = spec_take_str(b, 1)->0;
        assert(p == b.len());
        assert(b =~= seq![b[0]] + b.subrange(1, p)) by {
            assert forall|k: int| 0 <= k < b.len() implies b[k] == (seq![b[0]] + b.subrange(
                1,
                p,
            ))[k] by {
                if 1 <= k {
                    assert(b.subrange(1, p)[k - 1] == b[k]);
                }
            }
        }
    }
}

/// If a listing of `count` names is read at `pos`, the consumed range
/// is exactly the listing encoding of those names.
proof fn lemma_decode_names_canonical(b: Seq<u8>, pos: int, count: int)
    requires
        0 <= count,
        0 <= pos <= b.len(),
        spec_decode_names(b, pos, count) is Some,
    ensures
        ({
            let (ns, p) = spec_decode_names(b, pos, count)->0;
            &&& ns.len() == count
            &&& pos <= p <= b.len()
            &&& b.subrange(pos, p) == spec_encode_names(ns)
            &&& forall|i: int| 0 <= i < ns.len() ==> encode_utf8(#[trigger] ns[i]).len() <= u32::MAX
        }),
    decreases count,
{
    let (ns, p) = spec_decode_names(b, pos, count)->0;
    if count == 0 {
        assert(b.subrange(pos, pos) =~= spec_encode_names(ns));
    } else {
        lemma_take_str_canonical(b, pos);
        let (s, p1) = spec_take_str(b, pos)->0;
        lemma_decode_names_canonical(b, p1, count - 1);
        let (rest, p2) = spec_decode_names(b, p1, count - 1)->0;
        assert(ns == seq![s] + rest);
        assert(ns.first() == s);
        assert(ns.drop_first() =~= rest);
        assert(spec_encode_names(ns) == spec_str_chunk(s) + spec_encode_names(rest));
        assert(b.subrange(pos, p2) =~= b.subrange(pos, p1) + b.subrange(p1, p2)) by {
            assert forall|k: int| 0 <= k < p2 - pos implies b.subrange(pos, p2)[k] == (b.subrange(
                pos,
                p1,
            ) + b.subrange(p1, p2))[k] by {
                assert(b.subrange(pos, p2)[k] == b[pos + k]);
                if k < p1 - pos {
                    assert(b.subrange(pos, p1)[k] == b[pos + k]);
                } else {
                    assert(b.subrange(p1, p2)[k - (p1 - pos)] == b[pos + k]);
                }
            }
        }
        assert forall|i: int| 0 <= i < ns.len() implies encode_utf8(#[trigger] ns[i]).len()
            <= u32::MAX by {
            if i > 0 {
                assert(ns[i] == rest[i - 1]);
            }
        }
    }
}

/// Decoding accepts only encodings: a byte sequence that decodes to a
/// response is exactly that response's encoding, so the wire format is
/// unambiguous.
#[verifier::rlimit(100)]
pub proof fn lemma_response_decode_canonical(b: Seq<u8>)
    requires
        spec_decode_response(b) is Some,
    ensures
        spec_resp_fits(spec_decode_response(b)->0),
        spec_encode_response(spec_decode_response(b)->0) == b,
{
    let m = spec_decode_response(b)->0;
    lemma_take_str_canonical(b, 0);
    let (message, p) = spec_take_str(b, 0)->0;
    assert(m.message == message);
    let p2: int = if b[p] == 0 {
        p + 1
    } else {
        (spec_take_chunk(b, p + 1)->0).1
    };
    let optb: Seq<u8> = if b[p] == 0 {
        seq![0u8]
    } else {
        seq![1u8] + spec_chunk((spec_take_chunk(b, p + 1)->0).0)
    };
    if b[p] == 0 {
        assert(m.bytes is None);
        assert(b.subrange(p, p2) =~= optb);
    } else {
        assert(b[p] == 1);
        lemma_take_chunk_canonical(b, p + 1);
        let (bytes, _q) = spec_take_chunk(b, p + 1)->0;
        assert(m.bytes == Option::Some(bytes));
        assert(b.subrange(p, p2) =~= optb) by {
            assert(b.subrange(p + 1, p2) == spec_chunk(bytes));
            assert forall|k: int| 0 <= k < p2 - p implies b.subrange(p, p2)[k] == optb[k] by {
                assert(b.subrange(p, p2)[k] == b[p + k]);
                if k > 0 {
                    assert(b.subrange(p + 1, p2)[k - 1] == b[p + k]);
                }
            }
        }
    }
    let optn: Seq<u8> = if b[p2] == 0 {
        seq![0u8]
    } else {
        seq![1u8] + spec_u32_bytes((spec_take_u32(b, p2 + 1)->0).0) + spec_encode_names(
            m.names->0,
        )
    };
    if b[p2] == 0 {
        assert(m.names is None);
        assert(p2 + 1 == b.len());
        assert(b.subrange(p2, b.len() as int) =~= optn);
    } else {
        assert(b[p2] == 1);
        let (count, p3) = spec_take_u32(b, p2 + 1)->0;
        lemma_u32_of_bytes(b[p2 + 1], b[p2 + 2], b[p2 + 3], b[p2 + 4]);
        assert(spec_u32_bytes(count) == seq![b[p2 + 1], b[p2 + 2], b[p2 + 3], b[p2 + 4]]);
        lemma_decode_names_canonical(b, p3, count as int);
        let (ns, p4) = spec_decode_names(b, p3, count as int)->0;
        assert(m.names == Option::Some(ns));
        assert(p4 == b.len());
        assert(ns.len() as u32 == count);
        assert(b.subrange(p2, b.len() as int) =~= optn) by {
            assert(b.subrange(p3, p4) == spec_encode_names(ns));
            assert forall|k: int| 0 <= k < b.len() - p2 implies b.subrange(p2, b.len() as int)[k]
                == optn[k] by {
                assert(b.subrange(p2, b.len() as int)[k] == b[p2 + k]);
                if 1 <= k < 5 {
                    assert(optn[k] == spec_u32_bytes(count)[k - 1]);
                } else if k >= 5 {
                    assert(b.subrange(p3, p4)[k - 5] == b[p2 + k]);
                    assert(optn[k] == spec_encode_names(ns)[k - 5]);
                }
            }
        }
    }
    assert(b =~= b.subrange(0, p) + b.subrange(p, p2) + b.subrange(p2, b.len() as int)) by {
        assert forall|k: int| 0 <= k < b.len() implies b[k] == (b.subrange(0, p) + b.subrange(
            p,
            p2,
        ) + b.subrange(p2, b.len() as int))[k] by {
            if k < p {
                assert(b.subrange(0, p)[k] == b[k]);
            } else if k < p2 {
                assert(b.subrange(p, p2)[k - p] == b[k]);
            } else {
                assert(b.subrange(p2, b.len() as int)[k - p2] == b[k]);
            }
        }
    }
    assert(spec_encode_response(m) == spec_str_chunk(message) + optb + optn);
}

} // verus!
