//! Requests that fail without a server, the script interpreter's
//! parsing, and error formatting.

use std::time::Duration;

use tux::Request;
use tux::RequestError;
use tux::RequestMethod;
use tux::ScriptError;
use tux::parse_script;
use tux::run_script_to_string;

#[test]
fn returns_error_for_invalid_url() {
    let result = Request::new().send(RequestMethod::GET, "http://127.0.0.1:99999");
    match result {
        Err(RequestError::InvalidConfiguration(_)) => {}
        Err(err) => {
            panic!("wrong error: {}", err.message())
        }
        Ok(_) => {
            panic!("did not fail")
        }
    }
}

#[test]
fn returns_error_for_inexistent_server() {
    let result = Request::new().send(RequestMethod::GET, "http://127.0.0.1:753");
    match result {
        Err(RequestError::ConnectionFailed(_)) => {}
        Err(err) => {
            panic!("wrong error: {}", err.message())
        }
        Ok(_) => {
            panic!("did not fail")
        }
    }
}

#[test]
fn request_returns_connection_error_for_inexistent_server() {
    let result = Request::new()
        .with_timeout(Duration::from_millis(50))
        .send(RequestMethod::GET, "http://127.0.0.1:753");
    match result {
        Err(RequestError::ConnectionFailed(_)) => {}
        Err(err) => {
            panic!("wrong error: {}", err.message())
        }
        Ok(_) => {
            panic!("did not fail")
        }
    }
}

#[test]
fn request_returns_configuration_error_for_invalid_url() {
    let result = Request::new().send(RequestMethod::GET, "http://127.0.0.1:99999");
    match result {
        Err(RequestError::InvalidConfiguration(_)) => {}
        Err(err) => {
            panic!("wrong error: {}", err.message())
        }
        Ok(_) => {
            panic!("did not fail")
        }
    }
}

#[test]
fn empty_script_has_empty_output() {
    let output = run_script_to_string("").unwrap();
    assert_eq!(output, "");
}

#[test]
fn whitespace_script_has_empty_output() {
    let output = run_script_to_string("  \n \r\n ").unwrap();
    assert_eq!(output, "");
}

#[test]
fn script_rejects_an_unknown_method() {
    let result = run_script_to_string("FETCH localhost:8080");
    assert!(matches!(result, Err(ScriptError::InvalidMethod)));
}

#[test]
fn script_surfaces_an_invalid_url_as_a_request_error() {
    let result = run_script_to_string("GET http://127.0.0.1:99999");
    assert!(matches!(
        result,
        Err(ScriptError::Request(RequestError::InvalidConfiguration(_)))
    ));
}

#[test]
fn script_lines_parse_into_commands() {
    let source = "GET localhost:8080\n\nPOST http://h/x".as_bytes().to_vec();
    let commands = parse_script(&source).unwrap();
    assert_eq!(commands.len(), 2);
    assert!(matches!(commands[0].method, RequestMethod::GET));
    assert_eq!(commands[0].url, "localhost:8080".as_bytes().to_vec());
    assert!(matches!(commands[1].method, RequestMethod::POST));
    assert_eq!(commands[1].url, "http://h/x".as_bytes().to_vec());
}

#[test]
fn error_messages_name_their_kind() {
    let conn = RequestError::ConnectionFailed("boom".to_string());
    assert_eq!(conn.message(), "connection error: boom");
    let conf = RequestError::InvalidConfiguration("bad url".to_string());
    assert_eq!(conf.message(), "invalid request: bad url");
}
