use std::io;
use tamari::{Client, Connection, ErrorKind, ParseError, Response, TamariError};

struct MockConnection<'a> {
    pub expected_write: &'a [u8],
    pub expected_read: &'a [u8],
}

impl<'a> Connection for MockConnection<'a> {
    fn read(&mut self) -> Result<Vec<u8>, TamariError> {
        Ok(self.expected_read.to_vec())
    }

    fn write(&mut self, buffer: &[u8]) -> Result<(), TamariError> {
        if buffer == self.expected_write {
            Ok(())
        } else {
            Err(TamariError::new(ErrorKind::IO(io::Error::new(
                io::ErrorKind::Other,
                "invalid write",
            ))))
        }
    }
}

#[test]
fn get_success() {
    let key = b"foo";
    let expected_response = b"bar";

    let connection = MockConnection {
        expected_write: b"=3\tfoo\n",
        expected_read: b"$3\tbar\n",
    };

    let mut client = Client::new(connection);

    let response = client.get(&key[..]);

    assert!(response.is_ok());

    assert_eq!(
        response.unwrap(),
        Response::SuccessWithResult(expected_response.to_vec())
    );
}

#[test]
fn get_corrupt_response() {
    let key = b"foo";

    let connection = MockConnection {
        expected_write: b"=3\tfoo\n",
        expected_read: b"abcdef",
    };

    let mut client = Client::new(connection);

    let response = client.get(&key[..]);

    assert!(response.is_err());

    assert!(matches!(
        response.unwrap_err().kind(),
        ErrorKind::Parse(ParseError::InvalidPrefix(b'a'))
    ));
}

#[test]
fn set_success() {
    let key = b"foo";
    let value = "bar";

    let connection = MockConnection {
        expected_write: b"+3\tfoo3\tbar\n",
        expected_read: b"$\n",
    };

    let mut client = Client::new(connection);

    let response = client.set(&key[..], &value[..]);

    assert!(response.is_ok());
    assert_eq!(response.unwrap(), Response::Success);
}

#[test]
fn set_corrupt_response() {
    let key = b"foo";
    let value = "bar";

    let connection = MockConnection {
        expected_write: b"+3\tfoo3\tbar\n",
        expected_read: b"abcdef",
    };

    let mut client = Client::new(connection);

    let response = client.set(&key[..], &value[..]);

    assert!(response.is_err());

    assert!(matches!(
        response.unwrap_err().kind(),
        ErrorKind::Parse(ParseError::InvalidPrefix(b'a'))
    ));
}

#[test]
fn delete_success() {
    let key = b"foo";
    let expected_response = b"bar";

    let connection = MockConnection {
        expected_write: b"-3\tfoo\n",
        expected_read: b"$3\tbar\n",
    };

    let mut client = Client::new(connection);

    let response = client.delete(&key[..]);

    assert!(response.is_ok());

    assert_eq!(
        response.unwrap(),
        Response::SuccessWithResult(expected_response.to_vec())
    );
}

#[test]
fn delete_corrupt_response() {
    let key = b"foo";

    let connection = MockConnection {
        expected_write: b"-3\tfoo\n",
        expected_read: b"abcdef",
    };

    let mut client = Client::new(connection);

    let response = client.delete(&key[..]);

    assert!(response.is_err());

    assert!(matches!(
        response.unwrap_err().kind(),
        ErrorKind::Parse(ParseError::InvalidPrefix(b'a'))
    ));
}

#[test]
fn get_surfaces_write_failure_as_io_error() {
    let connection = MockConnection {
        expected_write: b"=3\tfoo\n",
        expected_read: b"$\n",
    };

    let mut client = Client::new(connection);

    // a different key than the transport expects makes the write fail
    let response = client.get(&b"bar"[..]);

    assert!(response.is_err());
    assert!(matches!(response.unwrap_err().kind(), ErrorKind::IO(_)));
}

#[test]
fn get_accepts_string_and_str_keys() {
    let connection = MockConnection {
        expected_write: b"=3\tfoo\n",
        expected_read: b"$\n",
    };
    let mut client = Client::new(connection);
    assert_eq!(client.get("foo").unwrap(), Response::Success);

    let connection = MockConnection {
        expected_write: b"=3\tfoo\n",
        expected_read: b"$\n",
    };
    let mut client = Client::new(connection);
    let owned = String::from("foo");
    assert_eq!(client.get(&owned).unwrap(), Response::Success);

    let connection = MockConnection {
        expected_write: b"=3\tfoo\n",
        expected_read: b"$\n",
    };
    let mut client = Client::new(connection);
    assert_eq!(client.get(owned).unwrap(), Response::Success);
}

#[test]
fn error_kind_round_trips_through_new() {
    let err = TamariError::new(ErrorKind::Parse(ParseError::MissingArgument));

    assert!(matches!(
        err.kind(),
        ErrorKind::Parse(ParseError::MissingArgument)
    ));
}
