//! The client: for each operation it frames the request, writes it through
//! the transport, reads one line back, and decodes it. A transport failure
//! and a malformed response surface through one error type.

use crate::connection::Connection;
use crate::error::{ErrorKind, TamariError};
use crate::parser::{
    encode_delete, encode_get, encode_set, parse_response, parse_spec, ParseError, RespView,
    Response,
};
use vstd::prelude::*;

verus! {

/// The capability of serving as a protocol argument: the value can be viewed
/// as a byte string.
pub trait ToTamariArg: Sized {
    /// The bytes the value contributes to the wire.
    spec fn arg_view(&self) -> Seq<u8>;

    /// The value's bytes, exactly as the wire will carry them.
    fn write_tamari_arg(&self) -> (r: &[u8])
        ensures
            r@ == self.arg_view(),
    ;
}

impl ToTamariArg for String {
    open spec fn arg_view(&self) -> Seq<u8> {
        vstd::utf8::encode_utf8(self@)
    }

    fn write_tamari_arg(&self) -> (r: &[u8]) {
        self.as_str().as_bytes()
    }
}

impl<'a> ToTamariArg for &'a String {
    open spec fn arg_view(&self) -> Seq<u8> {
        vstd::utf8::encode_utf8(self@)
    }

    fn write_tamari_arg(&self) -> (r: &[u8]) {
        self.as_str().as_bytes()
    }
}

impl<'a> ToTamariArg for &'a str {
    open spec fn arg_view(&self) -> Seq<u8> {
        vstd::utf8::encode_utf8(self@)
    }

    fn write_tamari_arg(&self) -> (r: &[u8]) {
        self.as_bytes()
    }
}

impl<'a> ToTamariArg for &'a [u8] {
    open spec fn arg_view(&self) -> Seq<u8> {
        self@
    }

    fn write_tamari_arg(&self) -> (r: &[u8]) {
        self
    }
}

/// A protocol client over an exclusively owned transport. Each call is
/// strictly half-duplex: the request is written in full, then one response
/// line is read and decoded.
pub struct Client<C: Connection> {
    connection: C,
}

impl<C: Connection> Client<C> {
    /// The transport this client owns.
    pub closed spec fn spec_connection(&self) -> C {
        self.connection
    }

    /// Wrap an established transport as a client; the client owns it
    /// exclusively from then on.
    pub fn new(connection: C) -> (r: Client<C>)
        ensures
            r.spec_connection() == connection,
    {
        Client { connection }
    }

    /// Issue a get for `key`: write `=`, the key as one argument and a
    /// newline, then read one line back and decode it.
    ///
    /// A returned response is always the decoding of some line under the
    /// wire grammar; what the transport does decides which. No partial
    /// response is ever returned: a malformed line fails the whole call.
    pub fn get<K: ToTamariArg>(&mut self, key: K) -> (r: Result<Response, TamariError>)
        ensures
            r matches Ok(resp) ==> exists|line: Seq<u8>|
                parse_spec(line) == Ok::<RespView, ParseError>(resp@),
    {
        let request = encode_get(key.write_tamari_arg());
        if let Err(e) = self.connection.write(request.as_slice()) {
            return Err(e);
        }
        match self.connection.read() {
            Ok(resp_raw) => match parse_response(resp_raw.as_slice()) {
                Ok(resp) => {
                    proof {
                        assert(parse_spec(resp_raw@) == Ok::<RespView, ParseError>(resp@));
                    }
                    Ok(resp)
                },
                Err(e) => Err(TamariError::new(ErrorKind::Parse(e))),
            },
            Err(e) => Err(e),
        }
    }

    /// Issue a set of `key` to `value`: write `+`, the two arguments back to
    /// back and a newline, then read one line back and decode it.
    ///
    /// A returned response is always the decoding of some line under the
    /// wire grammar; what the transport does decides which.
    pub fn set<K: ToTamariArg, V: ToTamariArg>(&mut self, key: K, value: V) -> (r: Result<
        Response,
        TamariError,
    >)
        ensures
            r matches Ok(resp) ==> exists|line: Seq<u8>|
                parse_spec(line) == Ok::<RespView, ParseError>(resp@),
    {
        let request = encode_set(key.write_tamari_arg(), value.write_tamari_arg());
        if let Err(e) = self.connection.write(request.as_slice()) {
            return Err(e);
        }
        match self.connection.read() {
            Ok(resp_raw) => match parse_response(resp_raw.as_slice()) {
                Ok(resp) => {
                    proof {
                        assert(parse_spec(resp_raw@) == Ok::<RespView, ParseError>(resp@));
                    }
                    Ok(resp)
                },
                Err(e) => Err(TamariError::new(ErrorKind::Parse(e))),
            },
            Err(e) => Err(e),
        }
    }

    /// Issue a delete of `key`: write `-`, the key as one argument and a
    /// newline, then read one line back and decode it.
    ///
    /// A returned response is always the decoding of some line under the
    /// wire grammar; what the transport does decides which.
    pub fn delete<K: ToTamariArg>(&mut self, key: K) -> (r: Result<Response, TamariError>)
        ensures
            r matches Ok(resp) ==> exists|line: Seq<u8>|
                parse_spec(line) == Ok::<RespView, ParseError>(resp@),
    {
        let request = encode_delete(key.write_tamari_arg());
        if let Err(e) = self.connection.write(request.as_slice()) {
            return Err(e);
        }
        match self.connection.read() {
            Ok(resp_raw) => match parse_response(resp_raw.as_slice()) {
                Ok(resp) => {
                    proof {
                        assert(parse_spec(resp_raw@) == Ok::<RespView, ParseError>(resp@));
                    }
                    Ok(resp)
                },
                Err(e) => Err(TamariError::new(ErrorKind::Parse(e))),
            },
            Err(e) => Err(e),
        }
    }
}

} // verus!
