use tokio_workq::validate::{check_request, check_response};
use tokio_workq::{Error, Pipeline, Resolution, State, Validate};

fn open() -> Validate<Pipeline<u32>> {
    let mut v = Validate::new(Pipeline::new());
    v.established();
    v
}

fn outcomes(resolved: Vec<Resolution<u32>>) -> Vec<(u32, Result<String, Error>)> {
    resolved.into_iter().map(|r| (r.handle, r.outcome)).collect()
}

#[test]
fn new_wraps_and_gives_back() {
    let v = Validate::new(41u8);
    assert_eq!(*v.get_ref(), 41);
    assert_eq!(v.into_inner(), 41);
}

#[test]
fn check_request_refuses_the_delimiter() {
    assert_eq!(check_request("fine"), Ok(()));
    assert_eq!(check_request(""), Ok(()));
    assert_eq!(check_request("a\nb"), Err(Error::InvalidInput));
    assert_eq!(check_request("\n"), Err(Error::InvalidInput));
    assert_eq!(check_request("end\n"), Err(Error::InvalidInput));
}

#[test]
fn check_response_turns_a_delimiter_into_a_failure() {
    assert_eq!(check_response(Ok("fine".to_string())), Ok("fine".to_string()));
    assert_eq!(check_response(Ok("two\nlines".to_string())), Err(Error::InvalidInput));
    assert_eq!(check_response(Err(Error::ConnectionFailed)), Err(Error::ConnectionFailed));
    assert_eq!(check_response(Err(Error::InvalidEncoding)), Err(Error::InvalidEncoding));
    assert_eq!(check_response(Err(Error::UnexpectedResponse)), Err(Error::UnexpectedResponse));
}

#[test]
fn call_with_a_delimiter_fails_and_never_writes() {
    let mut v = open();
    assert_eq!(v.call("a\nb".to_string(), 1), Err(Error::InvalidInput));
    assert_eq!(v.get_ref().pending(), 0);
    assert_eq!(v.state(), State::Open);
    assert_eq!(v.transmit(), b"");
}

#[test]
fn a_refused_call_does_not_disturb_the_others() {
    let mut v = open();
    assert_eq!(v.call("before".to_string(), 1), Ok(()));
    assert_eq!(v.call("bad\n".to_string(), 2), Err(Error::InvalidInput));
    assert_eq!(v.call("after".to_string(), 3), Ok(()));
    assert_eq!(v.transmit(), b"before\nafter\n");
    assert_eq!(
        outcomes(v.receive(b"r1\nr3\n")),
        vec![(1, Ok("r1".to_string())), (3, Ok("r3".to_string()))]
    );
    assert_eq!(v.state(), State::Open);
}

#[test]
fn failures_from_below_pass_through() {
    let mut v = open();
    assert_eq!(v.call("one".to_string(), 1), Ok(()));
    assert_eq!(v.call("two".to_string(), 2), Ok(()));
    assert_eq!(
        outcomes(v.terminate()),
        vec![(1, Err(Error::ConnectionFailed)), (2, Err(Error::ConnectionFailed))]
    );
    assert_eq!(v.call("three".to_string(), 3), Err(Error::ConnectionFailed));
    assert_eq!(v.call("th\nree".to_string(), 3), Err(Error::InvalidInput));
    assert_eq!(v.state(), State::Closing);
}
