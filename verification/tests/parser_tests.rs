use tamari::{parse_for_args, parse_response, ParseError, Response};

#[test]
fn parse_success_response() {
    let response = b"$\n";

    assert_eq!(parse_response(response).unwrap(), Response::Success);
}

#[test]
fn parse_success_response_with_result() {
    let response = b"$3\tfoo\n";

    assert_eq!(
        parse_response(response).unwrap(),
        Response::SuccessWithResult(b"foo".to_vec())
    );
}

#[test]
fn parse_error_response() {
    let response = b"!6\tFooBar\n";

    assert_eq!(
        parse_response(response).unwrap(),
        Response::Error(b"FooBar".to_vec())
    );
}

#[test]
fn parse_invalid_prefix() {
    let response = b"c3\tfoo\n";

    assert_eq!(parse_response(response), Err(ParseError::InvalidPrefix(b'c')));
}

#[test]
fn parse_empty_response() {
    let response = b"";

    assert_eq!(parse_response(response), Err(ParseError::EmptyResponse));
}

#[test]
fn parse_error_missing_argument() {
    let response = b"!\n";

    assert_eq!(parse_response(response), Err(ParseError::MissingArgument));
}

#[test]
fn parse_invalid_argument_size() {
    let response = b"$abc\tdef\n";

    assert_eq!(parse_response(response), Err(ParseError::InvalidArgumentSize));
}

#[test]
fn parse_argument_size_too_big() {
    let response = b"$100\tfoo\n";

    assert_eq!(parse_response(response), Err(ParseError::ArgumentSizeTooBig));
}

#[test]
fn parse_is_deterministic() {
    let response = b"$3\tfoo\n";

    assert_eq!(parse_response(response), parse_response(response));

    let malformed = b"$9\tfoo\n";

    assert_eq!(parse_response(malformed), parse_response(malformed));
}

#[test]
fn parse_rejects_every_other_prefix() {
    for b in 0u8..=255 {
        if b == b'$' || b == b'!' {
            continue;
        }
        let line = vec![b, b'\n'];
        assert_eq!(parse_response(&line), Err(ParseError::InvalidPrefix(b)));
    }
}

#[test]
fn parse_success_without_trailing_newline() {
    let response = b"$3\tfoo";

    assert_eq!(
        parse_response(response).unwrap(),
        Response::SuccessWithResult(b"foo".to_vec())
    );
}

#[test]
fn parse_surfaces_only_first_argument() {
    let response = b"$3\tfoo3\tbar\n";

    assert_eq!(
        parse_response(response).unwrap(),
        Response::SuccessWithResult(b"foo".to_vec())
    );
}

#[test]
fn parse_validates_extra_arguments() {
    // the first argument is fine; the second has a malformed length header
    let response = b"$3\tfooxx\n";

    assert_eq!(parse_response(response), Err(ParseError::InvalidArgumentSize));
}

#[test]
fn parse_empty_payload() {
    let response = b"$0\t\n";

    assert_eq!(
        parse_response(response).unwrap(),
        Response::SuccessWithResult(Vec::new())
    );
}

#[test]
fn parse_length_header_without_tab() {
    // the input ends before any tab terminates the length header
    let response = b"$123";

    assert_eq!(parse_response(response), Err(ParseError::InvalidArgumentSize));
}

#[test]
fn parse_tab_without_digits() {
    let response = b"$\tfoo\n";

    assert_eq!(parse_response(response), Err(ParseError::InvalidArgumentSize));
}

#[test]
fn parse_huge_declared_length() {
    // a declared length far past any machine word is still just "too big"
    let response = b"$99999999999999999999999999\tfoo\n";

    assert_eq!(parse_response(response), Err(ParseError::ArgumentSizeTooBig));
}

#[test]
fn parse_payload_may_hold_tabs_and_newlines() {
    let response = b"$4\ta\tb\n\n";

    assert_eq!(
        parse_response(response).unwrap(),
        Response::SuccessWithResult(b"a\tb\n".to_vec())
    );
}

#[test]
fn parse_for_args_returns_each_argument() {
    let body = b"3\tfoo3\tbar\n";

    let args = parse_for_args(body).unwrap();
    assert_eq!(args, vec![b"foo".to_vec(), b"bar".to_vec()]);
}

#[test]
fn parse_for_args_empty_body() {
    assert_eq!(parse_for_args(b"\n").unwrap(), Vec::<Vec<u8>>::new());
    assert_eq!(parse_for_args(b"").unwrap(), Vec::<Vec<u8>>::new());
}

#[test]
fn chunk_arg_bounds_the_argument() {
    let body = b"3\tfoo\n";

    assert_eq!(tamari::chunk_arg(body), Ok((2, 5)));
}

#[test]
fn chunk_arg_rejects_short_input() {
    let body = b"5\tfoo";

    assert_eq!(tamari::chunk_arg(body), Err(ParseError::ArgumentSizeTooBig));
}
