use tokio_workq::{Error, Pipeline, Resolution, State};

fn open() -> Pipeline<u32> {
    let mut p = Pipeline::new();
    p.established();
    p
}

fn outcomes(resolved: Vec<Resolution<u32>>) -> Vec<(u32, Result<String, Error>)> {
    resolved.into_iter().map(|r| (r.handle, r.outcome)).collect()
}

fn ok(handle: u32, text: &str) -> (u32, Result<String, Error>) {
    (handle, Ok(text.to_string()))
}

fn failed(handle: u32) -> (u32, Result<String, Error>) {
    (handle, Err(Error::ConnectionFailed))
}

#[test]
fn the_states_follow_one_another() {
    let mut p: Pipeline<u32> = Pipeline::new();
    assert_eq!(p.state(), State::Connecting);
    p.established();
    assert_eq!(p.state(), State::Open);
    p.established();
    assert_eq!(p.state(), State::Open);
    assert_eq!(outcomes(p.terminate()), vec![]);
    assert_eq!(p.state(), State::Closing);
    p.established();
    assert_eq!(p.state(), State::Closing);
    assert_eq!(p.transmit(), b"");
    assert_eq!(p.state(), State::Closed);
    assert_eq!(outcomes(p.terminate()), vec![]);
    assert_eq!(p.state(), State::Closed);
    p.established();
    assert_eq!(p.state(), State::Closed);
}

#[test]
fn a_call_before_the_connection_is_open_fails() {
    let mut p: Pipeline<u32> = Pipeline::new();
    assert_eq!(p.call("early".to_string(), 1), Err(Error::ConnectionFailed));
    assert_eq!(p.pending(), 0);
    assert_eq!(p.transmit(), b"");
    assert_eq!(p.state(), State::Connecting);
}

#[test]
fn calls_go_out_in_order() {
    let mut p = open();
    assert_eq!(p.call("one".to_string(), 1), Ok(()));
    assert_eq!(p.call("two".to_string(), 2), Ok(()));
    assert_eq!(p.pending(), 2);
    assert_eq!(p.transmit(), b"one\ntwo\n");
    assert_eq!(p.call("three".to_string(), 3), Ok(()));
    assert_eq!(p.transmit(), b"three\n");
    assert_eq!(p.pending(), 3);
    assert_eq!(p.state(), State::Open);
}

#[test]
fn replies_settle_calls_first_in_first_out() {
    let mut p = open();
    for (handle, request) in [(10, "c1"), (20, "c2"), (30, "c3")] {
        assert_eq!(p.call(request.to_string(), handle), Ok(()));
    }
    assert_eq!(
        outcomes(p.receive(b"r1\nr2\nr3\n")),
        vec![ok(10, "r1"), ok(20, "r2"), ok(30, "r3")]
    );
    assert_eq!(p.pending(), 0);
    assert_eq!(p.state(), State::Open);
}

#[test]
fn fifo_holds_however_the_reads_are_cut() {
    let wire = b"r1\nr2\nr3\n";
    for cut_a in 0..=wire.len() {
        for cut_b in cut_a..=wire.len() {
            let mut p = open();
            for (handle, request) in [(1, "c1"), (2, "c2"), (3, "c3")] {
                assert_eq!(p.call(request.to_string(), handle), Ok(()));
            }
            let mut seen = outcomes(p.receive(&wire[..cut_a]));
            seen.extend(outcomes(p.receive(&wire[cut_a..cut_b])));
            seen.extend(outcomes(p.receive(&wire[cut_b..])));
            assert_eq!(seen, vec![ok(1, "r1"), ok(2, "r2"), ok(3, "r3")]);
            assert_eq!(p.pending(), 0);
            assert_eq!(p.state(), State::Open);
        }
    }
}

#[test]
fn a_reply_settles_only_the_oldest_call() {
    let mut p = open();
    assert_eq!(p.call("c1".to_string(), 1), Ok(()));
    assert_eq!(p.call("c2".to_string(), 2), Ok(()));
    assert_eq!(outcomes(p.receive(b"r1\nhalf")), vec![ok(1, "r1")]);
    assert_eq!(p.pending(), 1);
    assert_eq!(p.call("c3".to_string(), 3), Ok(()));
    assert_eq!(outcomes(p.receive(b" of r2\nr3\n")), vec![ok(2, "half of r2"), ok(3, "r3")]);
    assert_eq!(p.pending(), 0);
}

#[test]
fn losing_the_connection_fails_every_pending_call_in_order() {
    let mut p = open();
    for handle in [7, 8, 9] {
        assert_eq!(p.call("wait".to_string(), handle), Ok(()));
    }
    assert_eq!(outcomes(p.terminate()), vec![failed(7), failed(8), failed(9)]);
    assert_eq!(p.pending(), 0);
    assert_eq!(p.state(), State::Closing);
    assert_eq!(outcomes(p.terminate()), vec![]);
}

#[test]
fn a_call_after_the_end_fails_at_once_and_writes_nothing() {
    let mut p = open();
    assert_eq!(p.call("sent".to_string(), 1), Ok(()));
    assert_eq!(outcomes(p.terminate()), vec![failed(1)]);
    assert_eq!(p.call("late".to_string(), 2), Err(Error::ConnectionFailed));
    assert_eq!(p.pending(), 0);
    assert_eq!(p.transmit(), b"sent\n");
    assert_eq!(p.state(), State::Closed);
    assert_eq!(p.call("later".to_string(), 3), Err(Error::ConnectionFailed));
    assert_eq!(p.transmit(), b"");
    assert_eq!(outcomes(p.receive(b"ghost\n")), vec![]);
}

#[test]
fn a_frame_that_is_not_text_ends_the_connection() {
    let mut p = open();
    for handle in [1, 2, 3] {
        assert_eq!(p.call("q".to_string(), handle), Ok(()));
    }
    let resolved = p.receive(&[b'a', b'\n', 0xc3, b'\n', b'c', b'\n']);
    assert_eq!(outcomes(resolved), vec![ok(1, "a"), failed(2), failed(3)]);
    assert_eq!(p.state(), State::Closing);
    assert_eq!(p.pending(), 0);
    assert_eq!(outcomes(p.receive(b"c\n")), vec![]);
    assert_eq!(p.call("again".to_string(), 4), Err(Error::ConnectionFailed));
}

#[test]
fn a_reply_that_nobody_waits_for_ends_the_connection() {
    let mut p = open();
    assert_eq!(p.call("only".to_string(), 1), Ok(()));
    assert_eq!(outcomes(p.receive(b"mine\nwhose?\n")), vec![ok(1, "mine")]);
    assert_eq!(p.state(), State::Closing);
    assert_eq!(p.call("next".to_string(), 2), Err(Error::ConnectionFailed));

    let mut idle = open();
    assert_eq!(outcomes(idle.receive(b"unasked\n")), vec![]);
    assert_eq!(idle.state(), State::Closing);
}

#[test]
fn the_pipeline_sends_a_delimiter_inside_a_request_as_it_is() {
    let mut p = open();
    assert_eq!(p.call("a\nb".to_string(), 1), Ok(()));
    assert_eq!(p.transmit(), b"a\nb\n");
}
