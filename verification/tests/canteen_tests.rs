use canteen::canteen::{FIRST_CLIENT, LISTENER, MAX_CLIENTS};
use canteen::{
    AcceptOutcome, AfterRead, Canteen, Interest, Method, Next, Phase, Progress, ReadOutcome, Readiness, Ready,
    Request, Response, Route, RouteError, WriteOutcome,
};

type Handler = fn(&Request) -> Response;

fn double(req: &Request) -> Response {
    let mut res = Response::new();
    match req.param_int("n") {
        Some(n) => {
            res.set_content_type("text/plain");
            res.append_str(&(n * 2).to_string());
        }
        None => res.set_code(400),
    }
    res
}

fn not_found(req: &Request) -> Response {
    Route::<Handler>::err_404(req)
}

fn hello(_req: &Request) -> Response {
    let mut res = Response::new();
    res.append_str("hello");
    res
}

fn readable() -> Readiness {
    Readiness { readable: true, writable: false, error: false, hup: false }
}

fn writable() -> Readiness {
    Readiness { readable: false, writable: true, error: false, hup: false }
}

fn server() -> Canteen<Handler> {
    let mut cnt: Canteen<Handler> = Canteen::new(not_found);
    cnt.add_route("/double/<int:n>", &[Method::Get], double).unwrap();
    cnt.add_route("/", &[Method::Get], hello).unwrap();
    cnt
}

/// Plays one exchange the way a driver would: the request arrives in
/// `chunks`, the socket takes `take` bytes on each write.
fn exchange(cnt: &mut Canteen<Handler>, chunks: &[&[u8]], take: usize) -> Vec<u8> {
    assert_eq!(cnt.ready(LISTENER, readable()), Ready::Accept);
    let token = cnt.accept(AcceptOutcome::Connected).client.unwrap();
    assert_eq!(cnt.ready(token, readable()), Ready::Read);
    for chunk in chunks {
        assert!(cnt.on_read(token, ReadOutcome::Data(chunk.to_vec())));
    }
    assert!(!cnt.on_read(token, ReadOutcome::WouldBlock));
    let job = match cnt.readable(token) {
        AfterRead::Run(job, next) => {
            assert_eq!(next, Next::Rearm(Interest { readable: true, writable: false }));
            job
        }
        AfterRead::Done(next) => panic!("no request was dispatched: {:?}", next),
    };
    assert_eq!(job.token, token);
    assert_eq!(cnt.connection(token).unwrap().phase, Phase::Dispatched);
    let bytes = (job.handler)(&job.request).gen_output();
    assert_eq!(
        cnt.notify(job.token, bytes),
        Some(Next::Rearm(Interest { readable: true, writable: true }))
    );
    assert_eq!(cnt.ready(token, writable()), Ready::Write);
    let mut wire = Vec::new();
    loop {
        let out = cnt.output(token).unwrap();
        let n = take.min(out.len());
        wire.extend_from_slice(&out[..n]);
        match cnt.on_write(token, WriteOutcome::Wrote(n)) {
            Progress::Again => {}
            Progress::Done(next) => {
                assert_eq!(next, Next::Close);
                break;
            }
        }
    }
    assert!(cnt.connection(token).is_none());
    wire
}

#[test]
fn double_route_answers_forty_two() {
    let mut cnt = server();
    let wire = exchange(&mut cnt, &[b"GET /double/21 HTTP/1.1\r\nHost: x\r\n\r\n"], 1000);
    assert_eq!(
        String::from_utf8(wire).unwrap(),
        "HTTP/1.1 200 OK\r\nContent-Type: text/plain\r\nContent-Length: 2\r\n\r\n42"
    );
}

#[test]
fn unmatched_path_falls_to_the_default_handler() {
    let mut cnt = server();
    let wire = exchange(&mut cnt, &[b"GET /double/abc HTTP/1.1\r\n\r\n"], 1000);
    assert_eq!(
        String::from_utf8(wire).unwrap(),
        "HTTP/1.1 404 Not Found\r\nContent-Type: text/plain\r\nContent-Length: 22\r\n\r\n\
         not found: /double/abc"
    );
    let post = exchange(&mut cnt, &[b"POST /double/21 HTTP/1.1\r\n\r\n"], 1000);
    assert!(String::from_utf8(post).unwrap().starts_with("HTTP/1.1 404 "));
}

#[test]
fn request_in_pieces_and_response_in_pieces() {
    let mut cnt = server();
    let wire = exchange(&mut cnt, &[b"GET /dou", b"ble/21 HTTP/1.1\r", b"\n\r\n"], 3);
    assert_eq!(
        String::from_utf8(wire).unwrap(),
        "HTTP/1.1 200 OK\r\nContent-Type: text/plain\r\nContent-Length: 2\r\n\r\n42"
    );
}

#[test]
fn handle_request_fills_the_parameters() {
    let mut cnt = server();
    let (handler, req) = cnt.handle_request(Request::new(Method::Get, "/double/21"));
    assert_eq!(req.params, Some(vec![("n".to_string(), "21".to_string())]));
    assert_eq!(handler(&req).payload, b"42".to_vec());
    let (fallback, req) = cnt.handle_request(Request::new(Method::Get, "/nothing"));
    assert_eq!(req.params, None);
    assert_eq!(fallback(&req).code, 404);
    cnt.set_default(hello);
    let (changed, req) = cnt.handle_request(Request::new(Method::Get, "/nothing"));
    assert_eq!(changed(&req).payload, b"hello".to_vec());
}

#[test]
fn duplicate_route_is_refused_by_the_core() {
    let mut cnt = server();
    assert_eq!(
        cnt.add_route("/double/<int:n>", &[Method::Get], hello),
        Err(RouteError::AlreadyDefined)
    );
    assert_eq!(cnt.add_route("/double/<int:n>", &[Method::Post], hello), Ok(()));
    let (handler, req) = cnt.handle_request(Request::new(Method::Post, "/double/21"));
    assert_eq!(handler(&req).payload, b"hello".to_vec());
    let (handler, req) = cnt.handle_request(Request::new(Method::Get, "/double/21"));
    assert_eq!(handler(&req).payload, b"42".to_vec());
}

#[test]
fn responses_reach_their_own_connections_in_any_order() {
    let mut cnt = server();
    let n = 20usize;
    let mut jobs = Vec::new();
    for k in 0..n {
        let token = cnt.accept(AcceptOutcome::Connected).client.unwrap();
        let text = format!("GET /double/{} HTTP/1.1\r\n\r\n", k);
        assert!(cnt.on_read(token, ReadOutcome::Data(text.into_bytes())));
        match cnt.readable(token) {
            AfterRead::Run(job, _) => jobs.push((k, job)),
            AfterRead::Done(_) => panic!("no request was dispatched"),
        }
    }
    let mut order: Vec<usize> = (0..n).collect();
    order.reverse();
    order.swap(3, 11);
    order.swap(0, 7);
    let mut done: Vec<(usize, usize)> = Vec::new();
    for at in order {
        let (k, job) = &jobs[at];
        let bytes = (job.handler)(&job.request).gen_output();
        assert!(cnt.notify(job.token, bytes).is_some());
        done.push((*k, job.token));
    }
    assert_eq!(done.len(), n);
    for (k, token) in done {
        let out = String::from_utf8(cnt.output(token).unwrap().clone()).unwrap();
        assert!(out.ends_with(&format!("\r\n\r\n{}", k * 2)), "{} got {}", k, out);
    }
}

#[test]
fn response_for_a_closed_connection_is_dropped() {
    let mut cnt = server();
    let token = cnt.accept(AcceptOutcome::Connected).client.unwrap();
    assert!(cnt.on_read(token, ReadOutcome::Data(b"GET / HTTP/1.1\r\n\r\n".to_vec())));
    let job = match cnt.readable(token) {
        AfterRead::Run(job, _) => job,
        AfterRead::Done(_) => panic!("no request was dispatched"),
    };
    let gone = Readiness { readable: false, writable: false, error: false, hup: true };
    assert_eq!(cnt.ready(token, gone), Ready::Done(Next::Close));
    assert!(cnt.connection(token).is_none());
    assert_eq!(cnt.notify(job.token, b"late".to_vec()), None);
    assert!(cnt.output(token).is_none());
}

#[test]
fn ready_says_what_to_do() {
    let mut cnt = server();
    let idle = Readiness { readable: false, writable: false, error: false, hup: false };
    let failed = Readiness { readable: true, writable: true, error: true, hup: false };
    assert_eq!(cnt.ready(LISTENER, readable()), Ready::Accept);
    assert_eq!(
        cnt.ready(LISTENER, writable()),
        Ready::Done(Next::Rearm(Interest { readable: true, writable: false }))
    );
    assert_eq!(cnt.ready(77, readable()), Ready::Unknown);
    assert_eq!(cnt.ready(0, readable()), Ready::Unknown);
    let token = cnt.accept(AcceptOutcome::Connected).client.unwrap();
    assert_eq!(token, FIRST_CLIENT);
    assert_eq!(cnt.ready(token, readable()), Ready::Read);
    let both = Readiness { readable: true, writable: true, error: false, hup: false };
    assert_eq!(cnt.ready(token, both), Ready::Read);
    assert_eq!(
        cnt.ready(token, writable()),
        Ready::Done(Next::Rearm(Interest { readable: true, writable: false }))
    );
    assert_eq!(
        cnt.ready(token, idle),
        Ready::Done(Next::Rearm(Interest { readable: true, writable: false }))
    );
    assert_eq!(cnt.ready(token, failed), Ready::Done(Next::Close));
    assert!(cnt.connection(token).is_none());
    assert_eq!(cnt.ready(token, readable()), Ready::Unknown);
}

#[test]
fn rounds_of_reads_end_in_wait_or_drop() {
    let mut cnt = server();
    let armed = Next::Rearm(Interest { readable: true, writable: false });
    let token = cnt.accept(AcceptOutcome::Connected).client.unwrap();
    assert!(matches!(cnt.readable(token), AfterRead::Done(n) if n == armed));
    assert!(cnt.on_read(token, ReadOutcome::Data(b"GET / HT".to_vec())));
    assert!(matches!(cnt.readable(token), AfterRead::Done(n) if n == armed));
    assert!(cnt.connection(token).is_some());
    assert!(!cnt.on_read(token, ReadOutcome::Closed));
    assert!(matches!(cnt.readable(token), AfterRead::Done(Next::Close)));
    assert!(cnt.connection(token).is_none());

    let token = cnt.accept(AcceptOutcome::Connected).client.unwrap();
    assert!(cnt.on_read(token, ReadOutcome::Data(b"nonsense\r\n\r\n".to_vec())));
    assert!(matches!(cnt.readable(token), AfterRead::Done(Next::Close)));
    assert!(cnt.connection(token).is_none());

    assert!(matches!(cnt.readable(999), AfterRead::Done(Next::Close)));
    assert!(!cnt.on_read(999, ReadOutcome::Data(b"x".to_vec())));
    assert_eq!(cnt.on_write(999, WriteOutcome::Wrote(1)), Progress::Done(Next::Close));
}

#[test]
fn request_that_ends_with_the_stream_is_still_served() {
    let mut cnt = server();
    let token = cnt.accept(AcceptOutcome::Connected).client.unwrap();
    assert!(cnt.on_read(token, ReadOutcome::Data(b"GET / HTTP/1.1\r\n\r\n".to_vec())));
    assert!(!cnt.on_read(token, ReadOutcome::Closed));
    match cnt.readable(token) {
        AfterRead::Run(job, next) => {
            assert_eq!(next, Next::Rearm(Interest { readable: false, writable: true }));
            assert_eq!(
                cnt.ready(token, writable()),
                Ready::Done(Next::Rearm(Interest { readable: false, writable: true }))
            );
            let bytes = (job.handler)(&job.request).gen_output();
            assert!(cnt.notify(token, bytes).is_some());
            assert_eq!(cnt.ready(token, writable()), Ready::Write);
        }
        AfterRead::Done(_) => panic!("no request was dispatched"),
    }
}

#[test]
fn would_block_in_a_write_waits_armed_for_writing() {
    let mut cnt = server();
    let token = cnt.accept(AcceptOutcome::Connected).client.unwrap();
    assert!(cnt.on_read(token, ReadOutcome::Data(b"GET / HTTP/1.1\r\n\r\n".to_vec())));
    assert!(matches!(cnt.readable(token), AfterRead::Run(_, _)));
    assert!(cnt.notify(token, b"0123456789".to_vec()).is_some());
    assert_eq!(cnt.on_write(token, WriteOutcome::Wrote(4)), Progress::Again);
    assert_eq!(
        cnt.on_write(token, WriteOutcome::WouldBlock),
        Progress::Done(Next::Rearm(Interest { readable: true, writable: true }))
    );
    assert_eq!(cnt.output(token).unwrap(), &b"456789".to_vec());
    assert_eq!(cnt.ready(token, writable()), Ready::Write);
    assert_eq!(cnt.on_write(token, WriteOutcome::Failed), Progress::Done(Next::Close));
    assert!(cnt.connection(token).is_none());
}

#[test]
fn slots_are_reused_and_bounded() {
    let mut cnt = server();
    let a = cnt.accept(AcceptOutcome::Connected).client.unwrap();
    let b = cnt.accept(AcceptOutcome::Connected).client.unwrap();
    let c = cnt.accept(AcceptOutcome::Connected).client.unwrap();
    assert_eq!((a, b, c), (FIRST_CLIENT, FIRST_CLIENT + 1, FIRST_CLIENT + 2));
    cnt.reset_connection(b);
    assert!(cnt.connection(b).is_none());
    assert_eq!(cnt.accept(AcceptOutcome::Connected).client, Some(b));
    assert_eq!(cnt.accept(AcceptOutcome::Connected).client, Some(FIRST_CLIENT + 3));
    for k in 4..MAX_CLIENTS {
        assert_eq!(cnt.accept(AcceptOutcome::Connected).client, Some(FIRST_CLIENT + k));
    }
    assert_eq!(cnt.accept(AcceptOutcome::Connected).client, None);
    cnt.reset_connection(FIRST_CLIENT + 100);
    assert_eq!(cnt.accept(AcceptOutcome::Connected).client, Some(FIRST_CLIENT + 100));
    assert_eq!(cnt.accept(AcceptOutcome::Connected).client, None);
}

#[test]
fn listener_is_armed_again_after_every_accept() {
    let mut cnt = server();
    let armed = Next::Rearm(Interest { readable: true, writable: false });
    for outcome in [AcceptOutcome::WouldBlock, AcceptOutcome::Failed] {
        let accepted = cnt.accept(outcome);
        assert_eq!(accepted.client, None);
        assert_eq!(accepted.listener, armed);
        assert!(cnt.connection(FIRST_CLIENT).is_none());
    }
    let accepted = cnt.accept(AcceptOutcome::Connected);
    assert_eq!(accepted.client, Some(FIRST_CLIENT));
    assert_eq!(accepted.listener, armed);
    let c = cnt.connection(FIRST_CLIENT).unwrap();
    assert_eq!(c.token, FIRST_CLIENT);
    assert_eq!(c.phase, Phase::Accepted);
    assert_eq!(c.interest, Interest { readable: true, writable: false });
    assert!(c.input.is_empty() && c.output.is_empty());
    for _ in 1..MAX_CLIENTS {
        assert_eq!(cnt.accept(AcceptOutcome::Connected).listener, armed);
    }
    let full = cnt.accept(AcceptOutcome::Connected);
    assert_eq!(full.client, None);
    assert_eq!(full.listener, armed);
}
