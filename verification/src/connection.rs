//! The state of one connection, and how it moves on socket events.
//!
//! The driver owns the socket. It reports what each non-blocking read or write
//! gave, and the connection says what happens next: go on, wait for the next
//! readiness event, or close. Nothing here blocks or touches a socket.

use vstd::prelude::*;

verus! {

/// The readiness events a socket is armed for.
#[derive(Clone, Copy, Debug, PartialEq, Eq, Structural)]
pub struct Interest {
    pub readable: bool,
    pub writable: bool,
}

impl Interest {
    /// Whether the socket is armed for anything at all. A socket armed for
    /// nothing never wakes the reactor again.
    pub open spec fn is_armed(self) -> bool {
        self.readable || self.writable
    }
}

/// What one non-blocking read gave.
#[derive(Debug)]
pub enum ReadOutcome {
    /// Bytes arrived. No bytes at all means the peer has finished sending.
    Data(Vec<u8>),
    /// Nothing to read for now.
    WouldBlock,
    /// The peer has finished sending.
    Closed,
    /// The read failed.
    Failed,
}

/// What one non-blocking write gave.
#[derive(Clone, Copy, Debug, PartialEq, Eq, Structural)]
pub enum WriteOutcome {
    /// The socket took this many bytes from the front of the output.
    Wrote(usize),
    /// The socket takes nothing for now.
    WouldBlock,
    /// The write failed.
    Failed,
}

/// What the driver does after a write has been reported.
#[derive(Clone, Copy, Debug, PartialEq, Eq, Structural)]
pub enum WriteStep {
    /// Output is left: write again.
    Again,
    /// Output is left but the socket is full: wait for the next writable event.
    Wait,
    /// The output is drained, or the write failed: close the connection.
    Close,
}

/// Where a connection stands in its exchange. It moves from `Accepted` to
/// `Reading` to `Dispatched` to `Writing`, and is closed by leaving the table
/// of connections.
#[derive(Clone, Copy, Debug, PartialEq, Eq, Structural)]
pub enum Phase {
    /// Just accepted; nothing has been read yet.
    Accepted,
    /// Collecting the bytes of a request.
    Reading,
    /// A request has been handed to a handler; the response is awaited.
    Dispatched,
    /// A response is being written out.
    Writing,
}

/// One connection: its token, what its socket is armed for, the bytes read
/// and not yet consumed, and the bytes still to be written.
#[derive(Debug)]
pub struct Connection {
    pub token: usize,
    pub phase: Phase,
    pub interest: Interest,
    pub input: Vec<u8>,
    pub output: Vec<u8>,
    /// Whether bytes have arrived since the input was last looked at.
    pub fresh: bool,
}

/// A connection as a mathematical value.
#[verifier::ext_equal]
pub struct ConnView {
    pub token: usize,
    pub phase: Phase,
    pub interest: Interest,
    pub input: Seq<u8>,
    pub output: Seq<u8>,
    pub fresh: bool,
}

impl View for Connection {
    type V = ConnView;

    open spec fn view(&self) -> ConnView {
        ConnView {
            token: self.token,
            phase: self.phase,
            interest: self.interest,
            input: self.input@,
            output: self.output@,
            fresh: self.fresh,
        }
    }
}

/// Whether a read outcome says that no more bytes will come.
pub open spec fn ends_input(outcome: ReadOutcome) -> bool {
    match outcome {
        ReadOutcome::Data(bytes) => bytes@.len() == 0,
        ReadOutcome::WouldBlock => false,
        ReadOutcome::Closed => true,
        ReadOutcome::Failed => true,
    }
}

/// The bytes that a read outcome brings.
pub open spec fn bytes_of(outcome: ReadOutcome) -> Seq<u8> {
    match outcome {
        ReadOutcome::Data(bytes) => bytes@,
        _ => Seq::empty(),
    }
}

/// What is left of an output after the socket took `n` bytes from its front.
pub open spec fn unsent(output: Seq<u8>, n: nat) -> Seq<u8> {
    if n >= output.len() {
        Seq::empty()
    } else {
        output.skip(n as int)
    }
}

/// What the socket took from an output of which it accepted `n` bytes.
pub open spec fn sent(output: Seq<u8>, n: nat) -> Seq<u8> {
    if n >= output.len() {
        output
    } else {
        output.take(n as int)
    }
}

/// A connection just accepted: armed for reading, with empty buffers.
pub open spec fn accepted(token: usize) -> ConnView {
    ConnView {
        token,
        phase: Phase::Accepted,
        interest: Interest { readable: true, writable: false },
        input: Seq::empty(),
        output: Seq::empty(),
        fresh: false,
    }
}

/// The connection after one read. A connection that was just accepted is
/// reading from now on. Bytes are added to the input. When the peer has
/// finished or the read failed, the socket is armed for writing only.
pub open spec fn after_read(c: ConnView, outcome: ReadOutcome) -> ConnView {
    ConnView {
        phase: if c.phase == Phase::Accepted {
            Phase::Reading
        } else {
            c.phase
        },
        input: c.input + bytes_of(outcome),
        fresh: c.fresh || bytes_of(outcome).len() > 0,
        interest: if ends_input(outcome) {
            Interest { readable: false, writable: true }
        } else {
            c.interest
        },
        ..c
    }
}

/// The connection once its request has gone to a handler.
pub open spec fn after_dispatch(c: ConnView) -> ConnView {
    ConnView { phase: Phase::Dispatched, input: Seq::empty(), ..c }
}

/// The connection once it holds the response to write out.
pub open spec fn after_respond(c: ConnView, output: Seq<u8>) -> ConnView {
    ConnView {
        phase: Phase::Writing,
        output,
        interest: Interest { readable: c.interest.readable, writable: true },
        ..c
    }
}

/// The connection after one write. Whatever the socket did not take stays,
/// in order. A socket that would block stays armed for writing; a drained
/// output disarms it.
pub open spec fn after_write(c: ConnView, outcome: WriteOutcome) -> ConnView {
    match outcome {
        WriteOutcome::Wrote(n) => ConnView {
            output: unsent(c.output, n as nat),
            interest: if n >= c.output.len() {
                Interest { readable: c.interest.readable, writable: false }
            } else {
                c.interest
            },
            ..c
        },
        WriteOutcome::WouldBlock => ConnView {
            interest: Interest { readable: c.interest.readable, writable: true },
            ..c
        },
        WriteOutcome::Failed => c,
    }
}

/// What the driver does after a write: write again while output is left,
/// wait when the socket is full, close when the output is drained or the
/// write failed.
pub open spec fn write_step(c: ConnView, outcome: WriteOutcome) -> WriteStep {
    match outcome {
        WriteOutcome::Wrote(n) => if n >= c.output.len() {
            WriteStep::Close
        } else {
            WriteStep::Again
        },
        WriteOutcome::WouldBlock => WriteStep::Wait,
        WriteOutcome::Failed => WriteStep::Close,
    }
}

impl Connection {
    /// A connection just accepted: armed for reading, with empty buffers.
    pub fn new(token: usize) -> (c: Connection)
        ensures
            c@ == accepted(token),
    {
        let c = Connection {
            token,
            phase: Phase::Accepted,
            interest: Interest { readable: true, writable: false },
            input: Vec::new(),
            output: Vec::new(),
            fresh: false,
        };
        assert(c@.input =~= Seq::<u8>::empty() && c@.output =~= Seq::<u8>::empty());
        c
    }

    /// Takes in what one read gave, and says whether to read again: the
    /// driver reads on as long as bytes arrive.
    pub fn on_read(&mut self, outcome: ReadOutcome) -> (again: bool)
        ensures
            final(self)@ == after_read(old(self)@, outcome),
            again == (bytes_of(outcome).len() > 0),
    {
        if self.phase == Phase::Accepted {
            self.phase = Phase::Reading;
        }
        match outcome {
            ReadOutcome::Data(bytes) => {
                if bytes.len() > 0 {
                    self.input.extend_from_slice(bytes.as_slice());
                    self.fresh = true;
                    assert(self.input@ =~= old(self).input@ + bytes@);
                    assert(self@.fresh == (old(self)@.fresh || bytes_of(outcome).len() > 0));
                    true
                } else {
                    self.interest = Interest { readable: false, writable: true };
                    assert(self.input@ =~= old(self).input@ + bytes@);
                    false
                }
            },
            ReadOutcome::WouldBlock => {
                assert(self.input@ =~= old(self).input@ + Seq::<u8>::empty());
                false
            },
            ReadOutcome::Closed => {
                self.interest = Interest { readable: false, writable: true };
                assert(self.input@ =~= old(self).input@ + Seq::<u8>::empty());
                false
            },
            ReadOutcome::Failed => {
                self.interest = Interest { readable: false, writable: true };
                assert(self.input@ =~= old(self).input@ + Seq::<u8>::empty());
                false
            },
        }
    }

    /// Whether bytes have arrived since this was last asked.
    pub fn take_fresh(&mut self) -> (r: bool)
        ensures
            r == old(self).fresh,
            final(self)@ == (ConnView { fresh: false, ..old(self)@ }),
    {
        let r = self.fresh;
        self.fresh = false;
        r
    }

    /// Marks the request as handed to a handler. The input is consumed.
    pub fn dispatched(&mut self)
        ensures
            final(self)@ == after_dispatch(old(self)@),
    {
        self.phase = Phase::Dispatched;
        self.input = Vec::new();
        assert(self.input@ =~= Seq::<u8>::empty());
    }

    /// Takes the response to write out, and arms the socket for writing.
    pub fn respond(&mut self, output: Vec<u8>)
        ensures
            final(self)@ == after_respond(old(self)@, output@),
    {
        self.phase = Phase::Writing;
        self.output = output;
        self.interest = Interest { readable: self.interest.readable, writable: true };
    }

    /// Takes in what one write gave, and says what to do next. After a short
    /// write the rest of the output is kept, in order, and is what the next
    /// write starts from.
    pub fn on_write(&mut self, outcome: WriteOutcome) -> (step: WriteStep)
        ensures
            final(self)@ == after_write(old(self)@, outcome),
            step == write_step(old(self)@, outcome),
    {
        match outcome {
            WriteOutcome::Wrote(n) => {
                if n >= self.output.len() {
                    self.output = Vec::new();
                    self.interest = Interest { readable: self.interest.readable, writable: false };
                    assert(self.output@ =~= Seq::<u8>::empty());
                    WriteStep::Close
                } else {
                    let rest = self.output.split_off(n);
                    self.output = rest;
                    assert(self.output@ =~= old(self).output@.skip(n as int));
                    WriteStep::Again
                }
            },
            WriteOutcome::WouldBlock => {
                self.interest = Interest { readable: self.interest.readable, writable: true };
                WriteStep::Wait
            },
            WriteOutcome::Failed => WriteStep::Close,
        }
    }
}

/// What the socket takes from an output in one write.
pub open spec fn taken(output: Seq<u8>, outcome: WriteOutcome) -> Seq<u8> {
    match outcome {
        WriteOutcome::Wrote(n) => sent(output, n as nat),
        _ => Seq::empty(),
    }
}

/// Everything the socket has taken in a run of writes, in order.
pub open spec fn written(c: ConnView, outcomes: Seq<WriteOutcome>) -> Seq<u8>
    decreases outcomes.len(),
{
    if outcomes.len() == 0 {
        Seq::empty()
    } else {
        taken(c.output, outcomes[0]) + written(after_write(c, outcomes[0]), outcomes.skip(1))
    }
}

/// The connection after a run of writes.
pub open spec fn after_writes(c: ConnView, outcomes: Seq<WriteOutcome>) -> ConnView
    decreases outcomes.len(),
{
    if outcomes.len() == 0 {
        c
    } else {
        after_writes(after_write(c, outcomes[0]), outcomes.skip(1))
    }
}

/// Writing loses and repeats nothing. After any run of writes, however short
/// each was and however often the socket would block or fail in between,
/// what the socket has taken followed by what the connection still holds is
/// the output the connection started with, byte for byte.
pub proof fn lemma_writes_keep_every_byte(c: ConnView, outcomes: Seq<WriteOutcome>)
    ensures
        written(c, outcomes) + after_writes(c, outcomes).output == c.output,
    decreases outcomes.len(),
{
    if outcomes.len() == 0 {
        assert(Seq::<u8>::empty() + c.output =~= c.output);
    } else {
        let next = after_write(c, outcomes[0]);
        lemma_writes_keep_every_byte(next, outcomes.skip(1));
        assert(taken(c.output, outcomes[0]) + next.output =~= c.output);
        assert(written(c, outcomes) + after_writes(c, outcomes).output =~= taken(
            c.output,
            outcomes[0],
        ) + (written(next, outcomes.skip(1)) + after_writes(next, outcomes.skip(1)).output));
    }
}

/// A socket that would block in the middle of a write costs nothing: the
/// output stays as it is, and the connection stays armed for writing, so the
/// next writable event goes on from the same byte.
pub proof fn lemma_would_block_resumes(c: ConnView)
    ensures
        after_write(c, WriteOutcome::WouldBlock).output == c.output,
        after_write(c, WriteOutcome::WouldBlock).interest.writable,
        write_step(c, WriteOutcome::WouldBlock) == WriteStep::Wait,
{
}

} // verus!
