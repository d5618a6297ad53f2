//! The framework core: the route table, the default handler, the table of
//! live connections, and the decisions of the reactor.
//!
//! A driver owns the sockets, the poller and the worker pool. It reports each
//! readiness event, each read and write, and each finished handler to a
//! `Canteen`, and does what it is told: accept, read, write, run a handler,
//! arm a socket again, or close it. Every answer that ends the servicing of an
//! event is a `Next`: the socket is either armed again or closed, never left
//! alone.

use vstd::prelude::*;
use crate::connection::{
    accepted, after_dispatch, after_read, after_respond, after_write, bytes_of, write_step,
    ConnView, Connection, Interest, Phase, ReadOutcome, WriteOutcome, WriteStep,
};
use crate::method::Method;
use crate::request::{parse_request, ParseView, Parsed, Request};
use crate::route::{option_pairs, pairs};
use crate::table::{remembered, RouteTable};
use crate::template::RouteError;

verus! {

/// The token of the listening socket.
pub const LISTENER: usize = 1;

/// The token of the first connection slot.
pub const FIRST_CLIENT: usize = 2;

/// The number of connection slots.
pub const MAX_CLIENTS: usize = 2048;

/// What the poller reports for a socket.
#[derive(Clone, Copy, Debug, PartialEq, Eq, Structural)]
pub struct Readiness {
    pub readable: bool,
    pub writable: bool,
    pub error: bool,
    pub hup: bool,
}

/// What becomes of a socket once an event has been serviced.
#[derive(Clone, Copy, Debug, PartialEq, Eq, Structural)]
pub enum Next {
    /// Arm the socket again, for these events.
    Rearm(Interest),
    /// Close the socket.
    Close,
}

/// What the driver does about a readiness event.
#[derive(Clone, Copy, Debug, PartialEq, Eq, Structural)]
pub enum Ready {
    /// Accept once on the listening socket, report what that gave with
    /// `accept`, and do with the listener what `accept` answers.
    Accept,
    /// Read until `on_read` says stop, then call `readable`.
    Read,
    /// Write the output until `on_write` says stop.
    Write,
    /// Nothing to read or write.
    Done(Next),
    /// The token names no socket of this reactor.
    Unknown,
}

/// What accepting on the listening socket gave.
#[derive(Clone, Copy, Debug, PartialEq, Eq, Structural)]
pub enum AcceptOutcome {
    /// A new socket.
    Connected,
    /// No connection is waiting.
    WouldBlock,
    /// Accepting failed.
    Failed,
}

/// What the driver does after an accept: `client` is the token under which
/// the new socket is kept and armed for reading, or `None` where there is no
/// socket to keep; `listener` is what becomes of the listening socket.
#[derive(Clone, Copy, Debug, PartialEq, Eq, Structural)]
pub struct Accepted {
    pub client: Option<usize>,
    pub listener: Next,
}

/// What the driver does after a write.
#[derive(Clone, Copy, Debug, PartialEq, Eq, Structural)]
pub enum Progress {
    /// Write again.
    Again,
    /// Stop writing.
    Done(Next),
}

/// A request on its way to a handler, with the token of the connection that
/// the response goes back to.
#[derive(Debug)]
pub struct Dispatch<H> {
    pub token: usize,
    pub handler: H,
    pub request: Request,
}

/// What the driver does after a round of reads.
#[derive(Debug)]
pub enum AfterRead<H> {
    /// Run the handler on the request, off the reactor, and report the
    /// response with `notify`.
    Run(Dispatch<H>, Next),
    /// No request to run.
    Done(Next),
}

/// What a round of reads amounts to for a connection.
pub enum Verdict {
    /// The input holds a whole request.
    Dispatch,
    /// Nothing to do for now.
    Wait,
    /// The connection is of no more use.
    Drop,
}

/// The interest of the listening socket.
pub open spec fn listening() -> Interest {
    Interest { readable: true, writable: false }
}

/// Whether a connection is still collecting its request.
pub open spec fn awaits_request(c: ConnView) -> bool {
    c.phase == Phase::Accepted || c.phase == Phase::Reading
}

/// What a round of reads amounts to. While a request is being collected and
/// bytes have arrived, the input is looked at: a whole request is
/// dispatched; malformed bytes drop the connection; the start of a request
/// waits for more, unless the peer has finished, which drops the connection.
/// Without new bytes a connection whose peer has finished before sending a
/// request is dropped, and any other waits.
pub open spec fn verdict(c: ConnView) -> Verdict {
    if c.fresh && awaits_request(c) {
        match parse_request(c.input) {
            ParseView::Complete { .. } => Verdict::Dispatch,
            ParseView::Incomplete => if c.interest.readable {
                Verdict::Wait
            } else {
                Verdict::Drop
            },
            ParseView::Malformed => Verdict::Drop,
        }
    } else if awaits_request(c) && !c.interest.readable {
        Verdict::Drop
    } else {
        Verdict::Wait
    }
}

/// The connection once its new bytes have been looked at.
pub open spec fn settled(c: ConnView) -> ConnView {
    ConnView { fresh: false, ..c }
}

/// What the driver does about a readiness event. An error or a hang-up
/// closes the socket. A readable listener accepts. A readable connection is
/// read, before anything is written. A writable connection with output is
/// written. Anything else arms the socket again as it was.
pub open spec fn ready_spec(conns: Map<usize, ConnView>, token: usize, events: Readiness) -> Ready {
    if events.error || events.hup {
        Ready::Done(Next::Close)
    } else if token == LISTENER {
        if events.readable {
            Ready::Accept
        } else {
            Ready::Done(Next::Rearm(listening()))
        }
    } else if !conns.contains_key(token) {
        Ready::Unknown
    } else if events.readable {
        Ready::Read
    } else if events.writable && conns[token].output.len() > 0 {
        Ready::Write
    } else {
        Ready::Done(Next::Rearm(conns[token].interest))
    }
}

/// Every connection sits under its own token, within the slots, and its
/// socket is armed for something.
pub open spec fn conns_ok(conns: Map<usize, ConnView>) -> bool {
    forall|t: usize| #[trigger]
        conns.contains_key(t) ==> {
            &&& conns[t].token == t
            &&& conns[t].interest.is_armed()
            &&& FIRST_CLIENT <= t < FIRST_CLIENT + MAX_CLIENTS
        }
}

/// The live connections held by a vector of slots, by token.
pub open spec fn conns_of(slots: Seq<Option<Connection>>) -> Map<usize, ConnView> {
    Map::new(
        |t: usize| FIRST_CLIENT <= t < FIRST_CLIENT + slots.len() && slots[t - FIRST_CLIENT] is Some,
        |t: usize| slots[t - FIRST_CLIENT].unwrap()@,
    )
}

proof fn lemma_slot_filled(
    before: Seq<Option<Connection>>,
    after: Seq<Option<Connection>>,
    i: int,
    v: ConnView,
)
    requires
        0 <= i < before.len(),
        before.len() <= MAX_CLIENTS,
        after.len() == before.len(),
        after[i] matches Some(c) && c@ == v,
        forall|j: int| 0 <= j < before.len() && j != i ==> after[j] == before[j],
    ensures
        conns_of(after) == conns_of(before).insert((i + FIRST_CLIENT) as usize, v),
{
    assert(conns_of(after) =~= conns_of(before).insert((i + FIRST_CLIENT) as usize, v));
}

proof fn lemma_slot_emptied(before: Seq<Option<Connection>>, after: Seq<Option<Connection>>, i: int)
    requires
        0 <= i < before.len(),
        before.len() <= MAX_CLIENTS,
        after == before.update(i, None),
    ensures
        conns_of(after) == conns_of(before).remove((i + FIRST_CLIENT) as usize),
{
    assert(conns_of(after) =~= conns_of(before).remove((i + FIRST_CLIENT) as usize));
}

/// The connections after the response `output` has come back for `token`: it
/// becomes the output of the connection under that token; without such a
/// connection nothing changes.
pub open spec fn notified(conns: Map<usize, ConnView>, token: usize, output: Seq<u8>) -> Map<
    usize,
    ConnView,
> {
    if conns.contains_key(token) {
        conns.insert(token, after_respond(conns[token], output))
    } else {
        conns
    }
}

/// Responses find their own connections in whatever order they come back:
/// two responses for two tokens leave the same connections either way round,
/// each connection holds the response sent for its own token, and every other
/// connection is as it was.
pub proof fn lemma_responses_reach_their_connections(
    conns: Map<usize, ConnView>,
    t1: usize,
    o1: Seq<u8>,
    t2: usize,
    o2: Seq<u8>,
)
    requires
        t1 != t2,
    ensures
        notified(notified(conns, t1, o1), t2, o2) == notified(notified(conns, t2, o2), t1, o1),
        conns.contains_key(t1) ==> notified(notified(conns, t1, o1), t2, o2)[t1].output == o1,
        conns.contains_key(t2) ==> notified(notified(conns, t1, o1), t2, o2)[t2].output == o2,
        forall|t: usize|
            t != t1 && t != t2 && conns.contains_key(t) ==> #[trigger] notified(
                notified(conns, t1, o1),
                t2,
                o2,
            )[t] == conns[t],
        notified(notified(conns, t1, o1), t2, o2).dom() == conns.dom(),
{
    assert(notified(notified(conns, t1, o1), t2, o2) =~= notified(notified(conns, t2, o2), t1, o1));
    assert(notified(notified(conns, t1, o1), t2, o2).dom() =~= conns.dom());
}

/// The connections after a run of responses has come back, one after the
/// other.
pub open spec fn notified_all(conns: Map<usize, ConnView>, msgs: Seq<(usize, Seq<u8>)>) -> Map<
    usize,
    ConnView,
>
    decreases msgs.len(),
{
    if msgs.len() == 0 {
        conns
    } else {
        notified(notified_all(conns, msgs.drop_last()), msgs.last().0, msgs.last().1)
    }
}

/// However many responses come back and in whatever order, as long as no two
/// are for the same token: the connections are the same ones as before, each
/// connection that a response was for holds that response as its output, and
/// a connection that no response was for is as it was.
pub proof fn lemma_every_response_reaches_its_connection(
    conns: Map<usize, ConnView>,
    msgs: Seq<(usize, Seq<u8>)>,
)
    requires
        forall|i: int, j: int| 0 <= i < j < msgs.len() ==> msgs[i].0 != msgs[j].0,
    ensures
        notified_all(conns, msgs).dom() == conns.dom(),
        forall|i: int|
            0 <= i < msgs.len() && conns.contains_key(msgs[i].0) ==> notified_all(
                conns,
                msgs,
            )[#[trigger] msgs[i].0] == after_respond(conns[msgs[i].0], msgs[i].1),
        forall|t: usize|
            conns.contains_key(t) && (forall|i: int| 0 <= i < msgs.len() ==> msgs[i].0 != t)
                ==> #[trigger] notified_all(conns, msgs)[t] == conns[t],
    decreases msgs.len(),
{
    if msgs.len() > 0 {
        let head = msgs.drop_last();
        let last = msgs.last();
        let before = notified_all(conns, head);
        lemma_every_response_reaches_its_connection(conns, head);
        assert(notified_all(conns, msgs).dom() =~= conns.dom());
        assert forall|t: usize|
            conns.contains_key(t) && (forall|i: int| 0 <= i < msgs.len() ==> msgs[i].0 != t)
            implies #[trigger] notified_all(conns, msgs)[t] == conns[t] by {
            assert(msgs[msgs.len() - 1].0 != t);
            assert forall|i: int| 0 <= i < head.len() implies head[i].0 != t by {
                assert(head[i] == msgs[i]);
            }
        }
        assert(conns.contains_key(last.0) ==> before[last.0] == conns[last.0]) by {
            assert forall|i: int| 0 <= i < head.len() implies head[i].0 != last.0 by {
                assert(head[i] == msgs[i]);
            }
        }
        assert forall|i: int| 0 <= i < msgs.len() && conns.contains_key(msgs[i].0) implies notified_all(
            conns,
            msgs,
        )[#[trigger] msgs[i].0] == after_respond(conns[msgs[i].0], msgs[i].1) by {
            if i < head.len() {
                assert(head[i] == msgs[i]);
                assert(msgs[i].0 != last.0);
            }
        }
    }
}

/// Whether a handler and parameters are what the table and the default
/// handler give for a request: the handler and the parameters of the first
/// matching route, or the default handler and no parameters.
pub open spec fn picked<H: Copy>(
    table: RouteTable<H>,
    default: H,
    path: Seq<char>,
    method: Method,
    handler: H,
    params: Option<Vec<(String, String)>>,
) -> bool {
    match table.resolution(path, method) {
        Some((h, p)) => handler == h && option_pairs(params) == p,
        None => handler == default && params is None,
    }
}

/// The framework core.
pub struct Canteen<H> {
    table: RouteTable<H>,
    default: H,
    slots: Vec<Option<Connection>>,
}

impl<H: Copy> Canteen<H> {
    /// The route table.
    pub closed spec fn table(&self) -> RouteTable<H> {
        self.table
    }

    /// The handler for requests that no route takes.
    pub closed spec fn default_handler(&self) -> H {
        self.default
    }

    /// The live connections, by token.
    pub closed spec fn conns(&self) -> Map<usize, ConnView> {
        conns_of(self.slots@)
    }

    /// The slots are within bounds and every connection sits in the slot of
    /// its token, armed.
    pub closed spec fn slots_ok(&self) -> bool {
        &&& self.slots@.len() <= MAX_CLIENTS
        &&& forall|i: int|
            0 <= i < self.slots@.len() ==> (#[trigger] self.slots@[i] matches Some(c) ==> c.token
                == i + FIRST_CLIENT && c.interest.is_armed())
    }

    /// The core is well formed when its route table is, and every live
    /// connection sits under its own token with an armed socket.
    pub open spec fn wf(&self) -> bool {
        &&& self.table().wf()
        &&& self.slots_ok()
        &&& conns_ok(self.conns())
    }

    proof fn lemma_conns_ok(&self)
        requires
            self.slots_ok(),
        ensures
            conns_ok(self.conns()),
    {
        assert forall|t: usize| #[trigger] self.conns().contains_key(t) implies {
            &&& self.conns()[t].token == t
            &&& self.conns()[t].interest.is_armed()
            &&& FIRST_CLIENT <= t < FIRST_CLIENT + MAX_CLIENTS
        } by {
            assert(self.slots@[t - FIRST_CLIENT] is Some);
        }
    }

    /// A core with no route and no connection, and the handler for requests
    /// that no route takes.
    pub fn new(default: H) -> (c: Canteen<H>)
        ensures
            c.wf(),
            c.default_handler() == default,
            c.table().routes().len() == 0,
            c.table().defs().len() == 0,
            c.table().cached() == Map::<Seq<char>, usize>::empty(),
            c.conns() == Map::<usize, ConnView>::empty(),
    {
        let c = Canteen { table: RouteTable::new(), default, slots: Vec::new() };
        proof {
            assert(c.conns() =~= Map::<usize, ConnView>::empty());
        }
        c
    }

    /// Adds one route for each method of the list, all compiled from one
    /// template and bound to one handler; see `RouteTable::add_route`. The
    /// connections are not touched.
    pub fn add_route(&mut self, path: &str, mlist: &[Method], handler: H) -> (r: Result<
        (),
        RouteError,
    >)
        requires
            old(self).wf(),
        ensures
            final(self).wf(),
            final(self).conns() == old(self).conns(),
            final(self).default_handler() == old(self).default_handler(),
            final(self).table().cached() == old(self).table().cached(),
            match r {
                Ok(()) => {
                    let ms = crate::table::distinct_methods(mlist@);
                    let n = old(self).table().routes().len();
                    &&& crate::table::add_route_error(old(self).table().defs(), path@, ms) is None
                    &&& final(self).table().defs() == old(self).table().defs() + Seq::new(
                        ms.len(),
                        |k: int| (path@, ms[k]),
                    )
                    &&& final(self).table().routes().len() == n + ms.len()
                    &&& final(self).table().routes().take(n as int) == old(self).table().routes()
                    &&& forall|k: int|
                        0 <= k < ms.len() ==> crate::table::serves(
                            #[trigger] final(self).table().routes()[n + k],
                            path@,
                            ms[k],
                            handler,
                        )
                },
                Err(e) => {
                    &&& crate::table::add_route_error(
                        old(self).table().defs(),
                        path@,
                        crate::table::distinct_methods(mlist@),
                    ) == Some(e)
                    &&& final(self).table().defs() == old(self).table().defs()
                    &&& final(self).table().routes() == old(self).table().routes()
                },
            },
    {
        self.table.add_route(path, mlist, handler)
    }

    /// Sets the handler for requests that no route takes.
    pub fn set_default(&mut self, handler: H)
        requires
            old(self).wf(),
        ensures
            final(self).wf(),
            final(self).default_handler() == handler,
            final(self).table() == old(self).table(),
            final(self).conns() == old(self).conns(),
    {
        self.default = handler;
    }

    /// Picks the handler for a request and fills in the parameters of the
    /// request: those of the first matching route with its handler, or none
    /// with the default handler.
    pub fn handle_request(&mut self, request: Request) -> (r: (H, Request))
        requires
            old(self).wf(),
        ensures
            final(self).wf(),
            final(self).conns() == old(self).conns(),
            final(self).default_handler() == old(self).default_handler(),
            final(self).table().routes() == old(self).table().routes(),
            final(self).table().defs() == old(self).table().defs(),
            r.1.method == request.method,
            r.1.path == request.path,
            r.1.headers == request.headers,
            r.1.payload == request.payload,
            picked(
                old(self).table(),
                old(self).default_handler(),
                request.path@,
                request.method,
                r.0,
                r.1.params,
            ),
            final(self).table().cached() == remembered(
                old(self).table().routes(),
                old(self).table().cached(),
                request.path@,
                request.method,
            ),
    {
        Self::pick(&mut self.table, self.default, request)
    }

    fn pick(table: &mut RouteTable<H>, default: H, request: Request) -> (r: (H, Request))
        requires
            old(table).wf(),
        ensures
            final(table).wf(),
            final(table).routes() == old(table).routes(),
            final(table).defs() == old(table).defs(),
            r.1.method == request.method,
            r.1.path == request.path,
            r.1.headers == request.headers,
            r.1.payload == request.payload,
            picked(*old(table), default, request.path@, request.method, r.0, r.1.params),
            final(table).cached() == remembered(
                old(table).routes(),
                old(table).cached(),
                request.path@,
                request.method,
            ),
    {
        let mut req = request;
        match table.resolve(&req) {
            Some((handler, params)) => {
                req.params = params;
                (handler, req)
            },
            None => {
                req.params = None;
                (default, req)
            },
        }
    }

    fn slot(&self, token: usize) -> (r: Option<usize>)
        requires
            self.slots_ok(),
        ensures
            match r {
                Some(i) => i < self.slots@.len() && token == i + FIRST_CLIENT && self.slots@[i as int]
                    is Some && self.conns().contains_key(token) && self.conns()[token]
                    == self.slots@[i as int].unwrap()@,
                None => !self.conns().contains_key(token),
            },
    {
        if token < FIRST_CLIENT {
            return None;
        }
        let i: usize = token - FIRST_CLIENT;
        if i >= self.slots.len() {
            return None;
        }
        match &self.slots[i] {
            Some(_) => Some(i),
            None => None,
        }
    }

    /// The connection under a token, if there is one.
    pub fn connection(&self, token: usize) -> (r: Option<&Connection>)
        requires
            self.wf(),
        ensures
            match r {
                Some(c) => self.conns().contains_key(token) && c@ == self.conns()[token],
                None => !self.conns().contains_key(token),
            },
    {
        match self.slot(token) {
            Some(i) => self.slots[i].as_ref(),
            None => None,
        }
    }

    /// Takes in what one accept on the listening socket gave. A new socket
    /// becomes a connection under the lowest free token, armed for reading;
    /// when every slot is taken there is no token and the socket is to be
    /// dropped. Without a new socket nothing changes. Whatever the accept
    /// gave, the listener is armed again for reading.
    pub fn accept(&mut self, outcome: AcceptOutcome) -> (r: Accepted)
        requires
            old(self).wf(),
        ensures
            final(self).wf(),
            final(self).table() == old(self).table(),
            final(self).default_handler() == old(self).default_handler(),
            r.listener == Next::Rearm(listening()),
            r.listener matches Next::Rearm(i) && i.is_armed(),
            outcome != AcceptOutcome::Connected ==> r.client is None && final(self).conns() == old(
                self,
            ).conns(),
            outcome == AcceptOutcome::Connected ==> match r.client {
                Some(t) => {
                    &&& FIRST_CLIENT <= t < FIRST_CLIENT + MAX_CLIENTS
                    &&& t != LISTENER
                    &&& !old(self).conns().contains_key(t)
                    &&& forall|u: usize| FIRST_CLIENT <= u < t ==> old(self).conns().contains_key(u)
                    &&& final(self).conns() == old(self).conns().insert(t, accepted(t))
                },
                None => {
                    &&& final(self).conns() == old(self).conns()
                    &&& forall|u: usize|
                        FIRST_CLIENT <= u < FIRST_CLIENT + MAX_CLIENTS ==> old(self).conns().contains_key(
                            u,
                        )
                },
            },
    {
        let client = match outcome {
            AcceptOutcome::Connected => self.take_slot(),
            AcceptOutcome::WouldBlock => None,
            AcceptOutcome::Failed => None,
        };
        Accepted { client, listener: Next::Rearm(Interest { readable: true, writable: false }) }
    }

    fn take_slot(&mut self) -> (r: Option<usize>)
        requires
            old(self).wf(),
        ensures
            final(self).wf(),
            final(self).table() == old(self).table(),
            final(self).default_handler() == old(self).default_handler(),
            match r {
                Some(t) => {
                    &&& FIRST_CLIENT <= t < FIRST_CLIENT + MAX_CLIENTS
                    &&& !old(self).conns().contains_key(t)
                    &&& forall|u: usize| FIRST_CLIENT <= u < t ==> old(self).conns().contains_key(u)
                    &&& final(self).conns() == old(self).conns().insert(t, accepted(t))
                },
                None => {
                    &&& final(self).conns() == old(self).conns()
                    &&& forall|u: usize|
                        FIRST_CLIENT <= u < FIRST_CLIENT + MAX_CLIENTS ==> old(self).conns().contains_key(
                            u,
                        )
                },
            },
    {
        let n: usize = self.slots.len();
        let mut i: usize = 0;
        while i < n && self.slots[i].is_some()
            invariant
                i <= n,
                n == self.slots@.len(),
                *self == *old(self),
                forall|j: int| 0 <= j < i ==> self.slots@[j] is Some,
            decreases n - i,
        {
            i = i + 1;
        }
        let ghost before = self.slots@;
        proof {
            assert forall|u: usize| FIRST_CLIENT <= u < i + FIRST_CLIENT implies self.conns().contains_key(
                u,
            ) by {
                assert(self.slots@[u - FIRST_CLIENT] is Some);
            }
        }
        if i < n {
            self.slots[i] = Some(Connection::new(i + FIRST_CLIENT));
            proof {
                lemma_slot_filled(before, self.slots@, i as int, accepted((i + FIRST_CLIENT) as usize));
                self.lemma_conns_ok();
            }
            Some(i + FIRST_CLIENT)
        } else if n < MAX_CLIENTS {
            self.slots.push(Some(Connection::new(n + FIRST_CLIENT)));
            proof {
                assert(self.conns() =~= old(self).conns().insert(
                    (n + FIRST_CLIENT) as usize,
                    accepted((n + FIRST_CLIENT) as usize),
                ));
                self.lemma_conns_ok();
            }
            Some(n + FIRST_CLIENT)
        } else {
            None
        }
    }

    /// Forgets the connection under a token, if there is one.
    pub fn reset_connection(&mut self, token: usize)
        requires
            old(self).wf(),
        ensures
            final(self).wf(),
            final(self).table() == old(self).table(),
            final(self).default_handler() == old(self).default_handler(),
            final(self).conns() == old(self).conns().remove(token),
    {
        match self.slot(token) {
            Some(i) => {
                let ghost before = self.slots@;
                self.slots[i] = None;
                proof {
                    lemma_slot_emptied(before, self.slots@, i as int);
                    self.lemma_conns_ok();
                }
            },
            None => {
                proof {
                    assert(self.conns().remove(token) =~= self.conns());
                }
            },
        }
    }

    /// Says what to do about a readiness event. An error or a hang-up forgets
    /// the connection; nothing else changes.
    pub fn ready(&mut self, token: usize, events: Readiness) -> (r: Ready)
        requires
            old(self).wf(),
        ensures
            final(self).wf(),
            final(self).table() == old(self).table(),
            final(self).default_handler() == old(self).default_handler(),
            r == ready_spec(old(self).conns(), token, events),
            final(self).conns() == if events.error || events.hup {
                old(self).conns().remove(token)
            } else {
                old(self).conns()
            },
            r matches Ready::Done(Next::Rearm(i)) ==> i.is_armed(),
            r matches Ready::Done(Next::Close) ==> !final(self).conns().contains_key(token),
    {
        if events.error || events.hup {
            self.reset_connection(token);
            return Ready::Done(Next::Close);
        }
        if token == LISTENER {
            return if events.readable {
                Ready::Accept
            } else {
                Ready::Done(Next::Rearm(Interest { readable: true, writable: false }))
            };
        }
        match self.slot(token) {
            None => Ready::Unknown,
            Some(i) => {
                if events.readable {
                    Ready::Read
                } else {
                    match &self.slots[i] {
                        Some(c) => {
                            if events.writable && c.output.len() > 0 {
                                Ready::Write
                            } else {
                                Ready::Done(Next::Rearm(c.interest))
                            }
                        },
                        None => Ready::Unknown,
                    }
                }
            },
        }
    }

    /// Takes in what one read on a connection gave, and says whether to read
    /// again. A token without a connection changes nothing and stops the
    /// reading.
    pub fn on_read(&mut self, token: usize, outcome: ReadOutcome) -> (again: bool)
        requires
            old(self).wf(),
        ensures
            final(self).wf(),
            final(self).table() == old(self).table(),
            final(self).default_handler() == old(self).default_handler(),
            if old(self).conns().contains_key(token) {
                &&& final(self).conns() == old(self).conns().insert(
                    token,
                    after_read(old(self).conns()[token], outcome),
                )
                &&& again == (bytes_of(outcome).len() > 0)
            } else {
                final(self).conns() == old(self).conns() && !again
            },
    {
        match self.slot(token) {
            None => false,
            Some(i) => {
                let ghost before = self.slots@;
                let again = match &mut self.slots[i] {
                    Some(c) => c.on_read(outcome),
                    None => false,
                };
                proof {
                    lemma_slot_filled(
                        before,
                        self.slots@,
                        i as int,
                        after_read(before[i as int].unwrap()@, outcome),
                    );
                    self.lemma_conns_ok();
                }
                again
            },
        }
    }

    /// Closes a round of reads on a connection: looks at the input if bytes
    /// have arrived, and says whether a handler is to run and what becomes of
    /// the socket. A whole request goes to the handler that the route table
    /// picks, with its parameters filled in; the connection then awaits the
    /// response.
    pub fn readable(&mut self, token: usize) -> (r: AfterRead<H>)
        requires
            old(self).wf(),
        ensures
            final(self).wf(),
            final(self).default_handler() == old(self).default_handler(),
            final(self).table().routes() == old(self).table().routes(),
            final(self).table().defs() == old(self).table().defs(),
            !old(self).conns().contains_key(token) ==> r == AfterRead::<H>::Done(Next::Close)
                && final(self).conns() == old(self).conns() && final(self).table() == old(
                self,
            ).table(),
            old(self).conns().contains_key(token) ==> {
                let c = old(self).conns()[token];
                match verdict(c) {
                    Verdict::Drop => r == AfterRead::<H>::Done(Next::Close) && final(self).conns()
                        == old(self).conns().remove(token) && final(self).table() == old(
                        self,
                    ).table(),
                    Verdict::Wait => r == AfterRead::<H>::Done(Next::Rearm(c.interest))
                        && final(self).conns() == old(self).conns().insert(token, settled(c))
                        && final(self).table() == old(self).table(),
                    Verdict::Dispatch => {
                        &&& final(self).conns() == old(self).conns().insert(
                            token,
                            after_dispatch(settled(c)),
                        )
                        &&& r matches AfterRead::Run(job, next)
                        &&& next == Next::Rearm(c.interest)
                        &&& job.token == token
                        &&& parse_request(c.input) matches ParseView::Complete {
                            method,
                            path,
                            headers,
                            payload,
                        }
                        &&& job.request.method == method
                        &&& job.request.path@ == path
                        &&& pairs(job.request.headers@) == headers
                        &&& job.request.payload@ == payload
                        &&& picked(
                            old(self).table(),
                            old(self).default_handler(),
                            path,
                            method,
                            job.handler,
                            job.request.params,
                        )
                        &&& final(self).table().cached() == remembered(
                            old(self).table().routes(),
                            old(self).table().cached(),
                            path,
                            method,
                        )
                    },
                }
            },
            r matches AfterRead::Done(Next::Rearm(i)) ==> i.is_armed(),
            r matches AfterRead::Run(_, next) ==> next matches Next::Rearm(i) && i.is_armed(),
    {
        let i: usize = match self.slot(token) {
            Some(i) => i,
            None => {
                return AfterRead::Done(Next::Close);
            },
        };
        let ghost before = self.slots@;
        let ghost c0 = before[i as int].unwrap()@;
        let (fresh, phase, interest) = match &mut self.slots[i] {
            Some(c) => (c.take_fresh(), c.phase, c.interest),
            None => (false, Phase::Writing, Interest { readable: true, writable: false }),
        };
        proof {
            lemma_slot_filled(before, self.slots@, i as int, settled(c0));
            self.lemma_conns_ok();
        }
        let ghost mid = self.slots@;
        let collecting = phase == Phase::Accepted || phase == Phase::Reading;
        let keep = if fresh && collecting {
            let parsed = match &self.slots[i] {
                Some(c) => Request::parse(c.input.as_slice()),
                None => Parsed::Malformed,
            };
            match parsed {
                Parsed::Complete(req) => {
                    let (handler, request) = Self::pick(&mut self.table, self.default, req);
                    let ghost held = self.slots@;
                    match &mut self.slots[i] {
                        Some(c) => c.dispatched(),
                        None => {},
                    }
                    proof {
                        assert(self.conns() == conns_of(self.slots@));
                        lemma_slot_filled(held, self.slots@, i as int, after_dispatch(settled(c0)));
                        assert(old(self).conns().insert(token, settled(c0)).insert(
                            token,
                            after_dispatch(settled(c0)),
                        ) =~= old(self).conns().insert(token, after_dispatch(settled(c0))));
                        self.lemma_conns_ok();
                    }
                    return AfterRead::Run(
                        Dispatch { token, handler, request },
                        Next::Rearm(interest),
                    );
                },
                Parsed::Incomplete => interest.readable,
                Parsed::Malformed => false,
            }
        } else {
            !(collecting && !interest.readable)
        };
        if keep {
            AfterRead::Done(Next::Rearm(interest))
        } else {
            self.slots[i] = None;
            proof {
                lemma_slot_emptied(mid, self.slots@, i as int);
                assert(old(self).conns().insert(token, settled(c0)).remove(token) =~= old(
                    self,
                ).conns().remove(token));
                self.lemma_conns_ok();
            }
            AfterRead::Done(Next::Close)
        }
    }

    /// The bytes that a connection still has to write.
    pub fn output(&self, token: usize) -> (r: Option<&Vec<u8>>)
        requires
            self.wf(),
        ensures
            match r {
                Some(bytes) => self.conns().contains_key(token) && bytes@ == self.conns()[token].output,
                None => !self.conns().contains_key(token),
            },
    {
        match self.slot(token) {
            Some(i) => match &self.slots[i] {
                Some(c) => Some(&c.output),
                None => None,
            },
            None => None,
        }
    }

    /// Takes in what one write on a connection gave, and says what to do
    /// next: write again while output is left; wait, armed for writing, when
    /// the socket is full; close, and forget the connection, when the output
    /// is drained or the write failed. A token without a connection closes.
    pub fn on_write(&mut self, token: usize, outcome: WriteOutcome) -> (r: Progress)
        requires
            old(self).wf(),
        ensures
            final(self).wf(),
            final(self).table() == old(self).table(),
            final(self).default_handler() == old(self).default_handler(),
            !old(self).conns().contains_key(token) ==> r == Progress::Done(Next::Close)
                && final(self).conns() == old(self).conns(),
            old(self).conns().contains_key(token) ==> {
                let c = old(self).conns()[token];
                match write_step(c, outcome) {
                    WriteStep::Again => r == Progress::Again && final(self).conns() == old(
                        self,
                    ).conns().insert(token, after_write(c, outcome)),
                    WriteStep::Wait => r == Progress::Done(
                        Next::Rearm(after_write(c, outcome).interest),
                    ) && final(self).conns() == old(self).conns().insert(
                        token,
                        after_write(c, outcome),
                    ),
                    WriteStep::Close => r == Progress::Done(Next::Close) && final(self).conns()
                        == old(self).conns().remove(token),
                }
            },
            r matches Progress::Done(Next::Rearm(i)) ==> i.is_armed(),
            r matches Progress::Done(Next::Close) ==> !final(self).conns().contains_key(token),
    {
        let i: usize = match self.slot(token) {
            Some(i) => i,
            None => {
                return Progress::Done(Next::Close);
            },
        };
        let ghost before = self.slots@;
        let ghost c0 = before[i as int].unwrap()@;
        let (step, interest) = match &mut self.slots[i] {
            Some(c) => (c.on_write(outcome), c.interest),
            None => (WriteStep::Close, Interest { readable: false, writable: false }),
        };
        let ghost mid = self.slots@;
        match step {
            WriteStep::Close => {
                self.slots[i] = None;
                proof {
                    assert(self.slots@ =~= before.update(i as int, None));
                    lemma_slot_emptied(before, self.slots@, i as int);
                    self.lemma_conns_ok();
                }
                Progress::Done(Next::Close)
            },
            WriteStep::Again => {
                proof {
                    lemma_slot_filled(before, self.slots@, i as int, after_write(c0, outcome));
                    self.lemma_conns_ok();
                }
                Progress::Again
            },
            WriteStep::Wait => {
                proof {
                    lemma_slot_filled(before, self.slots@, i as int, after_write(c0, outcome));
                    self.lemma_conns_ok();
                }
                Progress::Done(Next::Rearm(interest))
            },
        }
    }

    /// Takes in the response that a handler produced for the connection
    /// under `token`. The bytes become the output of that connection and of
    /// no other, and its socket is armed for writing. A response for a
    /// connection that is gone is dropped.
    pub fn notify(&mut self, token: usize, output: Vec<u8>) -> (r: Option<Next>)
        requires
            old(self).wf(),
        ensures
            final(self).wf(),
            final(self).table() == old(self).table(),
            final(self).default_handler() == old(self).default_handler(),
            final(self).conns() == notified(old(self).conns(), token, output@),
            r == if old(self).conns().contains_key(token) {
                Some(Next::Rearm(after_respond(old(self).conns()[token], output@).interest))
            } else {
                None
            },
            r matches Some(Next::Rearm(i)) ==> i.is_armed(),
    {
        match self.slot(token) {
            None => None,
            Some(i) => {
                let ghost before = self.slots@;
                let interest = match &mut self.slots[i] {
                    Some(c) => {
                        c.respond(output);
                        c.interest
                    },
                    None => Interest { readable: false, writable: true },
                };
                proof {
                    lemma_slot_filled(
                        before,
                        self.slots@,
                        i as int,
                        after_respond(before[i as int].unwrap()@, output@),
                    );
                    self.lemma_conns_ok();
                }
                Some(Next::Rearm(interest))
            },
        }
    }
}

} // verus!
