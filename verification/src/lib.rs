//! Client-side implementation of a length-prefixed, newline-terminated text
//! protocol for talking to a remote key/value store over a byte stream.
//!
//! The crate is organised as three layers: a pure codec that frames requests
//! and decodes response lines (`parser`), a transport capability that moves
//! raw bytes (`connection`), and a client that composes the two (`client`).

mod client;
mod connection;
mod error;
mod parser;

pub use client::{Client, ToTamariArg};
pub use connection::Connection;
pub use error::{ErrorKind, TamariError};
pub use parser::{
    arg_bytes, arg_views, args_spec, chunk_arg, chunk_spec, dec_digits, delete_request,
    digits_val, encode_delete, encode_get, encode_set, get_request, is_digit,
    lemma_args_round_trip_one, lemma_args_round_trip_two, lemma_decode_deterministic,
    lemma_delete_round_trip, lemma_error_round_trip, lemma_get_round_trip,
    lemma_invalid_prefix, lemma_set_request_injective, lemma_set_round_trip, lemma_success_round_trip, nondigit_pos,
    parse_for_args, parse_response, parse_spec, set_request, ParseError, RespView, Response,
    DEL_PREFIX, ERR_PREFIX, GET_PREFIX, NEWLINE, SET_PREFIX, SUC_PREFIX, TAB,
};
