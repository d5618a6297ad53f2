use canteen::{Connection, Interest, Phase, ReadOutcome, WriteOutcome, WriteStep};

#[test]
fn new_connection_is_armed_for_reading() {
    let c = Connection::new(5);
    assert_eq!(c.token, 5);
    assert_eq!(c.phase, Phase::Accepted);
    assert_eq!(c.interest, Interest { readable: true, writable: false });
    assert!(c.input.is_empty());
    assert!(c.output.is_empty());
    assert!(!c.fresh);
}

#[test]
fn reads_accumulate_until_the_socket_would_block() {
    let mut c = Connection::new(2);
    assert!(c.on_read(ReadOutcome::Data(b"GET / HT".to_vec())));
    assert_eq!(c.phase, Phase::Reading);
    assert!(c.on_read(ReadOutcome::Data(b"TP/1.1\r\n".to_vec())));
    assert!(!c.on_read(ReadOutcome::WouldBlock));
    assert_eq!(c.input, b"GET / HTTP/1.1\r\n".to_vec());
    assert_eq!(c.interest, Interest { readable: true, writable: false });
    assert!(c.take_fresh());
    assert!(!c.take_fresh());
    assert!(!c.on_read(ReadOutcome::WouldBlock));
    assert!(!c.take_fresh());
}

#[test]
fn end_of_input_arms_for_writing_only() {
    for outcome in [ReadOutcome::Closed, ReadOutcome::Failed, ReadOutcome::Data(Vec::new())] {
        let mut c = Connection::new(2);
        assert!(c.on_read(ReadOutcome::Data(b"abc".to_vec())));
        assert!(!c.on_read(outcome));
        assert_eq!(c.interest, Interest { readable: false, writable: true });
        assert_eq!(c.input, b"abc".to_vec());
        assert!(c.fresh);
    }
}

#[test]
fn response_arms_for_writing() {
    let mut c = Connection::new(2);
    c.dispatched();
    assert_eq!(c.phase, Phase::Dispatched);
    c.respond(b"HTTP/1.1 200 OK\r\n\r\n".to_vec());
    assert_eq!(c.phase, Phase::Writing);
    assert_eq!(c.interest, Interest { readable: true, writable: true });
    assert_eq!(c.output, b"HTTP/1.1 200 OK\r\n\r\n".to_vec());
}

#[test]
fn short_writes_resume_where_they_stopped() {
    let body: Vec<u8> = (0u8..=200).collect();
    let mut c = Connection::new(2);
    c.respond(body.clone());
    let mut wire: Vec<u8> = Vec::new();
    let takes = [1usize, 0, 7, 50, 3, 100, 1000];
    let mut steps = Vec::new();
    for take in takes {
        if take == 50 {
            assert_eq!(c.on_write(WriteOutcome::WouldBlock), WriteStep::Wait);
            assert!(c.interest.writable);
        }
        let n = take.min(c.output.len());
        wire.extend_from_slice(&c.output[..n]);
        let step = c.on_write(WriteOutcome::Wrote(take));
        steps.push(step);
        let mut all = wire.clone();
        all.extend_from_slice(&c.output);
        assert_eq!(all, body);
        if step == WriteStep::Close {
            break;
        }
    }
    assert_eq!(wire, body);
    assert!(c.output.is_empty());
    assert_eq!(steps.last(), Some(&WriteStep::Close));
    assert!(steps[..steps.len() - 1].iter().all(|s| *s == WriteStep::Again));
    assert!(!c.interest.writable);
}

#[test]
fn would_block_keeps_the_output() {
    let mut c = Connection::new(2);
    c.respond(b"0123456789".to_vec());
    assert_eq!(c.on_write(WriteOutcome::Wrote(4)), WriteStep::Again);
    assert_eq!(c.output, b"456789".to_vec());
    assert_eq!(c.on_write(WriteOutcome::WouldBlock), WriteStep::Wait);
    assert_eq!(c.output, b"456789".to_vec());
    assert_eq!(c.interest, Interest { readable: true, writable: true });
    assert_eq!(c.on_write(WriteOutcome::Wrote(6)), WriteStep::Close);
    assert!(c.output.is_empty());
}

#[test]
fn failed_write_closes() {
    let mut c = Connection::new(2);
    c.respond(b"abc".to_vec());
    assert_eq!(c.on_write(WriteOutcome::Failed), WriteStep::Close);
    assert_eq!(c.output, b"abc".to_vec());
}
