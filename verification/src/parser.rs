//! The codec: the wire grammar of the protocol, spec functions that give the
//! meaning of every byte sequence under that grammar, and the executable
//! decoder proved against them.
//!
//! Wire grammar (byte-oriented):
//! ```text
//! response := resp_byte arg? "\n"
//! resp_byte:= '$' | '!'            ; success | error
//! arg      := digits '\t' bytes{digits}
//! digits   := ['0'-'9']+           ; shortest form when encoding
//! ```

use vstd::prelude::*;

verus! {

/// Prefix byte of a successful response line: `$`.
pub const SUC_PREFIX: u8 = 0x24;

/// Prefix byte of an error response line: `!`.
pub const ERR_PREFIX: u8 = 0x21;

/// The tab byte that terminates an argument's decimal length header.
pub const TAB: u8 = 0x09;

/// The newline byte that terminates a frame.
pub const NEWLINE: u8 = 0x0a;

/// The ASCII code of the digit `0`.
pub const DIGIT_ZERO: u8 = 0x30;

/// The ASCII code of the digit `9`.
pub const DIGIT_NINE: u8 = 0x39;

/// True of the ASCII digit bytes `'0'..='9'`.
pub open spec fn is_digit(b: u8) -> bool {
    0x30 <= b <= 0x39
}

/// The value of a sequence of ASCII digit bytes read as a base-10 number.
pub open spec fn digits_val(s: Seq<u8>) -> nat
    decreases s.len(),
{
    if s.len() == 0 {
        0
    } else {
        digits_val(s.drop_last()) * 10 + (s.last() - DIGIT_ZERO) as nat
    }
}

/// The shortest base-10 ASCII representation of `n`: no leading zeros,
/// `"0"` for zero.
pub open spec fn dec_digits(n: nat) -> Seq<u8>
    decreases n,
{
    if n < 10 {
        seq![(DIGIT_ZERO + n) as u8]
    } else {
        dec_digits(n / 10).push((DIGIT_ZERO + n % 10) as u8)
    }
}

/// The index of the first byte of `s` that is not an ASCII digit, or
/// `s.len()` when every byte is a digit.
pub open spec fn nondigit_pos(s: Seq<u8>) -> int
    decreases s.len(),
{
    if s.len() == 0 {
        0
    } else if !is_digit(s[0]) {
        0
    } else {
        1 + nondigit_pos(s.skip(1))
    }
}

/// A typed response line, as decoding returns it.
#[derive(Debug, PartialEq)]
pub enum Response {
    /// A success line with no payload: `$\n`.
    Success,
    /// A success line carrying one argument: the server's result.
    SuccessWithResult(Vec<u8>),
    /// An error line carrying one argument: the server's message.
    Error(Vec<u8>),
}

/// The mathematical model of a [`Response`]: payloads as byte sequences.
pub ghost enum RespView {
    Success,
    SuccessWithResult(Seq<u8>),
    Error(Seq<u8>),
}

impl View for Response {
    type V = RespView;

    open spec fn view(&self) -> RespView {
        match self {
            Response::Success => RespView::Success,
            Response::SuccessWithResult(v) => RespView::SuccessWithResult(v@),
            Response::Error(v) => RespView::Error(v@),
        }
    }
}

/// The closed set of reasons decoding a response line can fail.
#[derive(Debug, PartialEq, Eq, Structural)]
pub enum ParseError {
    /// The line's first byte was neither `$` nor `!`; carries that byte.
    InvalidPrefix(u8),
    /// An error line carried no argument: `!\n` is malformed.
    MissingArgument,
    /// An argument's declared length exceeds the bytes that follow it.
    ArgumentSizeTooBig,
    /// An argument's length header was malformed: a non-digit byte before
    /// the tab, no digits at all, or the input ended before a tab.
    InvalidArgumentSize,
    /// The input was empty.
    EmptyResponse,
}

/// One step of argument chunking, starting at the front of `s`: the argument's
/// bytes and the total number of bytes consumed (length header, tab and
/// argument), or the reason the chunk is malformed.
pub open spec fn chunk_spec(s: Seq<u8>) -> Result<(Seq<u8>, int), ParseError> {
    let t = nondigit_pos(s);
    if t >= s.len() {
        // the input ended before a tab terminated the length header
        Err(ParseError::InvalidArgumentSize)
    } else if s[t] != TAB {
        Err(ParseError::InvalidArgumentSize)
    } else if t == 0 {
        // a tab with no digits before it
        Err(ParseError::InvalidArgumentSize)
    } else {
        let size = digits_val(s.subrange(0, t)) as int;
        if s.len() - (t + 1) < size {
            Err(ParseError::ArgumentSizeTooBig)
        } else {
            Ok((s.subrange(t + 1, t + 1 + size), t + 1 + size))
        }
    }
}

/// All arguments of a frame body: chunking repeats from the front of `s`
/// until a newline byte or the end of the input.
pub open spec fn args_spec(s: Seq<u8>) -> Result<Seq<Seq<u8>>, ParseError>
    decreases s.len(),
{
    if s.len() == 0 || s[0] == NEWLINE {
        Ok(Seq::empty())
    } else {
        match chunk_spec(s) {
            Err(e) => Err(e),
            Ok((arg, used)) => {
                if 0 < used <= s.len() {
                    match args_spec(s.skip(used)) {
                        Ok(rest) => Ok(seq![arg] + rest),
                        Err(e) => Err(e),
                    }
                } else {
                    // never reached: a well-formed chunk consumes at least its
                    // header and no more than the input
                    Ok(Seq::empty())
                }
            },
        }
    }
}

/// The meaning of a raw response line under the wire grammar: the decoded
/// response, or the first reason the line is malformed.
pub open spec fn parse_spec(raw: Seq<u8>) -> Result<RespView, ParseError> {
    if raw.len() == 0 {
        Err(ParseError::EmptyResponse)
    } else if raw[0] == SUC_PREFIX {
        match args_spec(raw.skip(1)) {
            Err(e) => Err(e),
            Ok(args) => if args.len() > 0 {
                Ok(RespView::SuccessWithResult(args[0]))
            } else {
                Ok(RespView::Success)
            },
        }
    } else if raw[0] == ERR_PREFIX {
        match args_spec(raw.skip(1)) {
            Err(e) => Err(e),
            Ok(args) => if args.len() > 0 {
                Ok(RespView::Error(args[0]))
            } else {
                Err(ParseError::MissingArgument)
            },
        }
    } else {
        Err(ParseError::InvalidPrefix(raw[0]))
    }
}

fn is_digit_byte(b: u8) -> (r: bool)
    ensures
        r == is_digit(b),
{
    DIGIT_ZERO <= b && b <= DIGIT_NINE
}

proof fn lemma_nondigit_pos_at(s: Seq<u8>, t: int)
    requires
        0 <= t <= s.len(),
        forall|j: int| 0 <= j < t ==> is_digit(s[j]),
        t == s.len() || !is_digit(s[t]),
    ensures
        nondigit_pos(s) == t,
    decreases t,
{
    if t > 0 {
        lemma_nondigit_pos_at(s.skip(1), t - 1);
    }
}

/// Chunk one argument from the front of `raw`: scan the decimal length
/// header up to its tab, then bound the argument's bytes. Returns the
/// half-open byte range of the argument within `raw`; the range's end is
/// also how far the cursor advances.
pub fn chunk_arg(raw: &[u8]) -> (r: Result<(usize, usize), ParseError>)
    ensures
        match r {
            Ok(bounds) => {
                &&& 0 < bounds.0 <= bounds.1 <= raw@.len()
                &&& chunk_spec(raw@) == Ok::<(Seq<u8>, int), ParseError>(
                    (raw@.subrange(bounds.0 as int, bounds.1 as int), bounds.1 as int),
                )
            },
            Err(e) => chunk_spec(raw@) == Err::<(Seq<u8>, int), ParseError>(e),
        },
{
    let mut t: usize = 0;
    while t < raw.len() && is_digit_byte(raw[t])
        invariant
            t <= raw@.len(),
            forall|j: int| 0 <= j < t ==> is_digit(raw@[j]),
        decreases raw@.len() - t,
    {
        t += 1;
    }
    proof {
        lemma_nondigit_pos_at(raw@, t as int);
    }
    if t == raw.len() {
        // the input ended before a tab terminated the length header
        return Err(ParseError::InvalidArgumentSize);
    }
    if raw[t] != TAB {
        return Err(ParseError::InvalidArgumentSize);
    }
    if t == 0 {
        return Err(ParseError::InvalidArgumentSize);
    }

    let remaining: usize = raw.len() - t - 1;
    let mut val: usize = 0;
    let mut over = false;
    let mut i: usize = 0;
    while i < t
        invariant
            i <= t < raw@.len(),
            t as int == nondigit_pos(raw@),
            remaining == raw@.len() - t - 1,
            forall|j: int| 0 <= j < t ==> is_digit(raw@[j]),
            !over ==> val == digits_val(raw@.subrange(0, i as int)) && val <= remaining,
            over ==> digits_val(raw@.subrange(0, i as int)) > remaining,
        decreases t - i,
    {
        let d: u8 = raw[i] - DIGIT_ZERO;
        proof {
            assert(raw@.subrange(0, i + 1 as int).drop_last() =~= raw@.subrange(0, i as int));
            assert(raw@.subrange(0, i + 1 as int).last() == raw@[i as int]);
        }
        if over {
            // a longer digit string only grows the declared size
        } else if val > remaining / 10 {
            over = true;
        } else if val == remaining / 10 && (d as usize) > remaining % 10 {
            over = true;
        } else {
            val = val * 10 + (d as usize);
        }
        i += 1;
    }

    proof {
        assert(raw@.subrange(0, t as int) == raw@.subrange(0, i as int));
    }
    if over {
        return Err(ParseError::ArgumentSizeTooBig);
    }
    Ok((t + 1, t + 1 + val))
}

/// The byte sequences held by a vector of owned arguments.
pub open spec fn arg_views(v: Seq<Vec<u8>>) -> Seq<Seq<u8>> {
    Seq::new(v.len(), |i: int| v[i]@)
}

/// The arguments still owed when chunking has consumed `pos` bytes and
/// already yielded `done`.
spec fn args_from(s: Seq<u8>, pos: int, done: Seq<Seq<u8>>) -> Result<Seq<Seq<u8>>, ParseError> {
    match args_spec(s.skip(pos)) {
        Ok(rest) => Ok(done + rest),
        Err(e) => Err(e),
    }
}

/// Parse every argument of a frame body, stopping at the first newline byte
/// or the end of the input. Each argument is returned as an owned copy of
/// its bytes.
pub fn parse_for_args(raw: &[u8]) -> (r: Result<Vec<Vec<u8>>, ParseError>)
    ensures
        match r {
            Ok(args) => args_spec(raw@) == Ok::<Seq<Seq<u8>>, ParseError>(arg_views(args@)),
            Err(e) => args_spec(raw@) == Err::<Seq<Seq<u8>>, ParseError>(e),
        },
{
    let mut args: Vec<Vec<u8>> = Vec::new();
    let mut pos: usize = 0;

    proof {
        assert(raw@.skip(0) =~= raw@);
        assert(arg_views(args@) =~= Seq::<Seq<u8>>::empty());
        match args_spec(raw@) {
            Ok(rest) => {
                assert(arg_views(args@) + rest =~= rest);
            },
            Err(_) => {},
        }
    }
    while pos < raw.len()
        invariant
            pos <= raw@.len(),
            args_spec(raw@) == args_from(raw@, pos as int, arg_views(args@)),
        decreases raw@.len() - pos,
    {
        if raw[pos] == NEWLINE {
            proof {
                match args_spec(raw@.skip(pos as int)) {
                    Ok(rest) => {
                        assert(arg_views(args@) + rest =~= arg_views(args@));
                    },
                    Err(_) => {},
                }
            }
            return Ok(args);
        }

        let tail = &raw[pos..raw.len()];
        proof {
            assert(tail@ =~= raw@.skip(pos as int));
        }
        let bounds = match chunk_arg(tail) {
            Ok(b) => b,
            Err(e) => {
                return Err(e);
            },
        };
        let (start, end) = bounds;
        let arg = vstd::slice::slice_to_vec(&tail[start..end]);
        let ghost done_before = arg_views(args@);
        args.push(arg);
        proof {
            assert(arg_views(args@) =~= done_before + seq![arg@]);
            assert(raw@.skip(pos as int).skip(end as int) =~= raw@.skip(pos + end));
            match args_spec(raw@.skip(pos + end)) {
                Ok(rest) => {
                    assert(done_before + (seq![arg@] + rest) =~= arg_views(args@) + rest);
                },
                Err(_) => {},
            }
        }
        pos += end;
    }
    proof {
        assert(raw@.skip(pos as int) =~= Seq::<u8>::empty());
        match args_spec(raw@.skip(pos as int)) {
            Ok(rest) => {
                assert(arg_views(args@) + rest =~= arg_views(args@));
            },
            Err(_) => {},
        }
    }
    Ok(args)
}

/// Decode one raw response line (with or without its trailing newline) into
/// a typed [`Response`], or report the first way the line is malformed.
///
/// The returned value is exactly what the wire grammar assigns to the bytes:
/// `r` equals [`parse_spec`] of the input, so decoding is a pure function of
/// the input bytes alone.
pub fn parse_response(raw: &[u8]) -> (r: Result<Response, ParseError>)
    ensures
        match r {
            Ok(resp) => parse_spec(raw@) == Ok::<RespView, ParseError>(resp@),
            Err(e) => parse_spec(raw@) == Err::<RespView, ParseError>(e),
        },
{
    if raw.len() == 0 {
        return Err(ParseError::EmptyResponse);
    }
    let prefix: u8 = raw[0];
    if prefix != SUC_PREFIX && prefix != ERR_PREFIX {
        return Err(ParseError::InvalidPrefix(prefix));
    }
    let body = &raw[1..raw.len()];
    proof {
        assert(body@ =~= raw@.skip(1));
    }
    let mut args = match parse_for_args(body) {
        Ok(a) => a,
        Err(e) => {
            return Err(e);
        },
    };
    if prefix == SUC_PREFIX {
        if args.len() > 0 {
            let first = args.remove(0);
            Ok(Response::SuccessWithResult(first))
        } else {
            Ok(Response::Success)
        }
    } else {
        if args.len() > 0 {
            let first = args.remove(0);
            Ok(Response::Error(first))
        } else {
            Err(ParseError::MissingArgument)
        }
    }
}

/// Request op byte for a get: `=`.
pub const GET_PREFIX: u8 = 0x3d;

/// Request op byte for a set: `+`.
pub const SET_PREFIX: u8 = 0x2b;

/// Request op byte for a delete: `-`.
pub const DEL_PREFIX: u8 = 0x2d;

/// The wire form of one argument: its decimal byte count, a tab, then the
/// bytes themselves. The argument is self-delimiting, so arbitrary bytes
/// (tabs and newlines included) are carried without escaping.
pub open spec fn arg_bytes(b: Seq<u8>) -> Seq<u8> {
    dec_digits(b.len()) + seq![TAB] + b
}

/// The request bytes of `Get(key)`.
pub open spec fn get_request(key: Seq<u8>) -> Seq<u8> {
    seq![GET_PREFIX] + arg_bytes(key) + seq![NEWLINE]
}

/// The request bytes of `Set(key, value)`: the two arguments follow one
/// another with no separator, each delimited by its own length header.
pub open spec fn set_request(key: Seq<u8>, value: Seq<u8>) -> Seq<u8> {
    seq![SET_PREFIX] + arg_bytes(key) + arg_bytes(value) + seq![NEWLINE]
}

/// The request bytes of `Delete(key)`.
pub open spec fn delete_request(key: Seq<u8>) -> Seq<u8> {
    seq![DEL_PREFIX] + arg_bytes(key) + seq![NEWLINE]
}

fn push_digits(n: usize, out: &mut Vec<u8>)
    ensures
        final(out)@ == old(out)@ + dec_digits(n as nat),
    decreases n,
{
    if n < 10 {
        out.push(DIGIT_ZERO + n as u8);
        proof {
            assert(out@ =~= old(out)@ + dec_digits(n as nat));
        }
    } else {
        push_digits(n / 10, out);
        out.push(DIGIT_ZERO + (n % 10) as u8);
        proof {
            assert(out@ =~= old(out)@ + dec_digits(n as nat));
        }
    }
}

fn push_arg(b: &[u8], out: &mut Vec<u8>)
    ensures
        final(out)@ == old(out)@ + arg_bytes(b@),
{
    push_digits(b.len(), out);
    out.push(TAB);
    let mut i: usize = 0;
    proof {
        assert(out@ =~= old(out)@ + dec_digits(b@.len()) + seq![TAB] + b@.subrange(0, 0));
    }
    while i < b.len()
        invariant
            i <= b@.len(),
            out@ == old(out)@ + dec_digits(b@.len()) + seq![TAB] + b@.subrange(0, i as int),
        decreases b@.len() - i,
    {
        out.push(b[i]);
        i += 1;
        proof {
            assert(out@ =~= old(out)@ + dec_digits(b@.len()) + seq![TAB] + b@.subrange(
                0,
                i as int,
            ));
        }
    }
    proof {
        assert(b@.subrange(0, b@.len() as int) =~= b@);
        assert(out@ =~= old(out)@ + arg_bytes(b@));
    }
}

/// Encode a get request: `=`, the key as one argument, a newline.
pub fn encode_get(key: &[u8]) -> (r: Vec<u8>)
    ensures
        r@ == get_request(key@),
{
    let mut out: Vec<u8> = Vec::new();
    out.push(GET_PREFIX);
    push_arg(key, &mut out);
    out.push(NEWLINE);
    proof {
        assert(out@ =~= get_request(key@));
    }
    out
}

/// Encode a set request: `+`, the key and the value each as one argument,
/// a newline.
pub fn encode_set(key: &[u8], value: &[u8]) -> (r: Vec<u8>)
    ensures
        r@ == set_request(key@, value@),
{
    let mut out: Vec<u8> = Vec::new();
    out.push(SET_PREFIX);
    push_arg(key, &mut out);
    push_arg(value, &mut out);
    out.push(NEWLINE);
    proof {
        assert(out@ =~= set_request(key@, value@));
    }
    out
}

/// Encode a delete request: `-`, the key as one argument, a newline.
pub fn encode_delete(key: &[u8]) -> (r: Vec<u8>)
    ensures
        r@ == delete_request(key@),
{
    let mut out: Vec<u8> = Vec::new();
    out.push(DEL_PREFIX);
    push_arg(key, &mut out);
    out.push(NEWLINE);
    proof {
        assert(out@ =~= delete_request(key@));
    }
    out
}

proof fn lemma_dec_digits_are_digits(n: nat)
    ensures
        dec_digits(n).len() >= 1,
        forall|i: int| 0 <= i < dec_digits(n).len() ==> is_digit(#[trigger] dec_digits(n)[i]),
    decreases n,
{
    if n >= 10 {
        lemma_dec_digits_are_digits(n / 10);
    }
}

proof fn lemma_dec_digits_val(n: nat)
    ensures
        digits_val(dec_digits(n)) == n,
    decreases n,
{
    reveal_with_fuel(digits_val, 2);
    if n < 10 {
        assert(dec_digits(n).drop_last() =~= Seq::<u8>::empty());
        assert(dec_digits(n).last() == (DIGIT_ZERO + n) as u8);
        assert(digits_val(dec_digits(n)) == n);
    } else {
        lemma_dec_digits_val(n / 10);
        assert(dec_digits(n).drop_last() =~= dec_digits(n / 10));
        assert(dec_digits(n).last() == (DIGIT_ZERO + n % 10) as u8);
        vstd::arithmetic::div_mod::lemma_fundamental_div_mod(n as int, 10);
        assert(digits_val(dec_digits(n)) == (n / 10) * 10 + n % 10);
    }
}

/// Chunking reads back exactly the argument that `arg_bytes` framed, however
/// the input continues after it.
proof fn lemma_chunk_of_arg(b: Seq<u8>, rest: Seq<u8>)
    ensures
        chunk_spec(arg_bytes(b) + rest) == Ok::<(Seq<u8>, int), ParseError>(
            (b, arg_bytes(b).len() as int),
        ),
{
    let s = arg_bytes(b) + rest;
    let dd = dec_digits(b.len());
    let t = dd.len() as int;
    lemma_dec_digits_are_digits(b.len());
    lemma_dec_digits_val(b.len());
    assert forall|j: int| 0 <= j < t implies is_digit(s[j]) by {
        assert(s[j] == dd[j]);
    }
    assert(s[t] == TAB);
    lemma_nondigit_pos_at(s, t);
    assert(s.subrange(0, t) =~= dd);
    assert(s.subrange(t + 1, t + 1 + b.len() as int) =~= b);
}

/// One framed argument followed by a newline chunks to exactly that argument.
pub proof fn lemma_args_round_trip_one(b: Seq<u8>)
    ensures
        args_spec(arg_bytes(b) + seq![NEWLINE]) == Ok::<Seq<Seq<u8>>, ParseError>(seq![b]),
{
    reveal_with_fuel(args_spec, 2);
    let s = arg_bytes(b) + seq![NEWLINE];
    let used = arg_bytes(b).len() as int;
    lemma_dec_digits_are_digits(b.len());
    lemma_chunk_of_arg(b, seq![NEWLINE]);
    assert(s[0] == dec_digits(b.len())[0]);
    assert(s.skip(used) =~= seq![NEWLINE]);
    assert(seq![b] + Seq::<Seq<u8>>::empty() =~= seq![b]);
}

/// Two framed arguments followed by a newline chunk to exactly those two
/// arguments, in order.
pub proof fn lemma_args_round_trip_two(a: Seq<u8>, b: Seq<u8>)
    ensures
        args_spec(arg_bytes(a) + arg_bytes(b) + seq![NEWLINE]) == Ok::<Seq<Seq<u8>>, ParseError>(
            seq![a, b],
        ),
{
    let s = arg_bytes(a) + arg_bytes(b) + seq![NEWLINE];
    let used = arg_bytes(a).len() as int;
    lemma_dec_digits_are_digits(a.len());
    lemma_chunk_of_arg(a, arg_bytes(b) + seq![NEWLINE]);
    assert(s =~= arg_bytes(a) + (arg_bytes(b) + seq![NEWLINE]));
    assert(s[0] == dec_digits(a.len())[0]);
    assert(s.skip(used) =~= arg_bytes(b) + seq![NEWLINE]);
    lemma_args_round_trip_one(b);
    assert(seq![a] + seq![b] =~= seq![a, b]);
}

/// Round-trip: a grammar-conformant chunking of the encoding of
/// `Set(key, value)` recovers exactly the key and the value, with no
/// truncation, whatever bytes they hold - tabs and newlines included.
pub proof fn lemma_set_round_trip(key: Seq<u8>, value: Seq<u8>)
    ensures
        args_spec(set_request(key, value).skip(1)) == Ok::<Seq<Seq<u8>>, ParseError>(
            seq![key, value],
        ),
{
    assert(set_request(key, value).skip(1) =~= arg_bytes(key) + arg_bytes(value) + seq![NEWLINE]);
    lemma_args_round_trip_two(key, value);
}

/// Round-trip for a get request: chunking its encoding recovers the key.
pub proof fn lemma_get_round_trip(key: Seq<u8>)
    ensures
        args_spec(get_request(key).skip(1)) == Ok::<Seq<Seq<u8>>, ParseError>(seq![key]),
{
    assert(get_request(key).skip(1) =~= arg_bytes(key) + seq![NEWLINE]);
    lemma_args_round_trip_one(key);
}

/// Round-trip for a delete request: chunking its encoding recovers the key.
pub proof fn lemma_delete_round_trip(key: Seq<u8>)
    ensures
        args_spec(delete_request(key).skip(1)) == Ok::<Seq<Seq<u8>>, ParseError>(seq![key]),
{
    assert(delete_request(key).skip(1) =~= arg_bytes(key) + seq![NEWLINE]);
    lemma_args_round_trip_one(key);
}

/// A success line carrying one framed payload decodes to exactly that
/// payload.
pub proof fn lemma_success_round_trip(payload: Seq<u8>)
    ensures
        parse_spec(seq![SUC_PREFIX] + arg_bytes(payload) + seq![NEWLINE]) == Ok::<
            RespView,
            ParseError,
        >(RespView::SuccessWithResult(payload)),
{
    let line = seq![SUC_PREFIX] + arg_bytes(payload) + seq![NEWLINE];
    assert(line.skip(1) =~= arg_bytes(payload) + seq![NEWLINE]);
    lemma_args_round_trip_one(payload);
}

/// An error line carrying one framed message decodes to exactly that
/// message.
pub proof fn lemma_error_round_trip(message: Seq<u8>)
    ensures
        parse_spec(seq![ERR_PREFIX] + arg_bytes(message) + seq![NEWLINE]) == Ok::<
            RespView,
            ParseError,
        >(RespView::Error(message)),
{
    let line = seq![ERR_PREFIX] + arg_bytes(message) + seq![NEWLINE];
    assert(line.skip(1) =~= arg_bytes(message) + seq![NEWLINE]);
    lemma_args_round_trip_one(message);
}

/// Framing is unambiguous: two set requests over the same wire bytes carry
/// the same key and the same value, so an independent grammar-conformant
/// parser can never read a request two ways.
pub proof fn lemma_set_request_injective(k1: Seq<u8>, v1: Seq<u8>, k2: Seq<u8>, v2: Seq<u8>)
    requires
        set_request(k1, v1) == set_request(k2, v2),
    ensures
        k1 == k2,
        v1 == v2,
{
    lemma_set_round_trip(k1, v1);
    lemma_set_round_trip(k2, v2);
    assert(seq![k1, v1][0] == k1 && seq![k1, v1][1] == v1);
    assert(seq![k2, v2][0] == k2 && seq![k2, v2][1] == v2);
}

/// Determinism: decoding is a pure function of the input bytes; two
/// decodings of the same bytes yield equal results. Every result of
/// [`parse_response`] equals [`parse_spec`] of its input, of which this
/// states the functionality.
pub proof fn lemma_decode_deterministic(
    bytes: Seq<u8>,
    r1: Result<RespView, ParseError>,
    r2: Result<RespView, ParseError>,
)
    requires
        r1 == parse_spec(bytes),
        r2 == parse_spec(bytes),
    ensures
        r1 == r2,
{
}

/// Prefix validation: a non-empty line whose first byte is neither `$` nor
/// `!` decodes to `InvalidPrefix` carrying that byte, whatever follows.
pub proof fn lemma_invalid_prefix(line: Seq<u8>)
    requires
        line.len() > 0,
        line[0] != SUC_PREFIX,
        line[0] != ERR_PREFIX,
    ensures
        parse_spec(line) == Err::<RespView, ParseError>(ParseError::InvalidPrefix(line[0])),
{
}

} // verus!
