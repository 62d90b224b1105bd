//! Per-connection state: the readiness interest bits, the inbound
//! accumulator, and the outbound queue. A connection ingests newly read
//! bytes, eagerly extracts every complete frame into parsed commands, and
//! keeps only the trailing partial frame; queued response bytes leave from
//! the front as the socket accepts them.

use vstd::prelude::*;
use crate::codec::{parse_model, Command};
use crate::framing::{commands_of, delimiter, frames_of, residue_of};

verus! {

/// The readiness interest of one connection: which events should be polled
/// for it next.
#[derive(Clone, Copy, PartialEq, Eq, Structural, Debug)]
pub struct Interest {
    pub readable: bool,
    pub writable: bool,
    pub hangup: bool,
}

/// The state of one client connection, apart from its socket.
pub struct Connection {
    inbound: Vec<u8>,
    outbound: Vec<u8>,
    interest: Interest,
}

/// The mathematical state of a connection.
pub ghost struct ConnView {
    pub inbound: Seq<u8>,
    pub outbound: Seq<u8>,
    pub interest: Interest,
}

/// Whether a byte sequence is free of frame delimiters.
pub open spec fn delimiter_free(s: Seq<u8>) -> bool {
    forall|i: int| 0 <= i < s.len() ==> s[i] != delimiter()
}

impl ConnView {
    /// Well-formedness: complete frames are extracted eagerly, so the
    /// accumulator holds no delimiter; writable interest is asserted
    /// exactly while the outbound queue is non-empty.
    pub open spec fn wf(self) -> bool {
        &&& delimiter_free(self.inbound)
        &&& self.interest.writable == (self.outbound.len() > 0)
    }
}

impl View for Connection {
    type V = ConnView;

    closed spec fn view(&self) -> ConnView {
        ConnView { inbound: self.inbound@, outbound: self.outbound@, interest: self.interest }
    }
}

/// Partial write resilience: a write interrupted after `n` of the queued
/// bytes leaves exactly the remainder queued, and the interrupted prefix
/// followed by a later drain of that remainder is the whole queue — every
/// byte leaves exactly once, none duplicated, none dropped. Draining the
/// remainder in further chunks composes the same way.
pub proof fn lemma_partial_write(q: Seq<u8>, n: int, m: int)
    requires
        0 <= n <= q.len(),
        0 <= m <= q.len() - n,
    ensures
        q.take(n) + q.skip(n) == q,
        q.skip(n).take(m) == q.subrange(n, n + m),
        q.skip(n).skip(m) == q.skip(n + m),
{
    assert(q.take(n) + q.skip(n) =~= q);
    assert(q.skip(n).take(m) =~= q.subrange(n, n + m));
    assert(q.skip(n).skip(m) =~= q.skip(n + m));
}

/// Copies the bytes of `v` between `lo` and `hi` into a fresh vector.
pub(crate) fn copy_range(v: &Vec<u8>, lo: usize, hi: usize) -> (r: Vec<u8>)
    requires
        lo <= hi <= v@.len(),
    ensures
        r@ == v@.subrange(lo as int, hi as int),
{
    let mut r: Vec<u8> = Vec::new();
    let mut k: usize = lo;
    while k < hi
        invariant
            lo <= k <= hi <= v@.len(),
            r@ == v@.subrange(lo as int, k as int),
        decreases hi - k,
    {
        r.push(v[k]);
        k = k + 1;
        assert(r@ =~= v@.subrange(lo as int, k as int));
    }
    r
}

impl Connection {
    /// A fresh connection: empty buffers, interest in hangup only; reading
    /// starts once the caller arms readable interest on registration.
    pub fn new() -> (c: Connection)
        ensures
            c@.wf(),
            c@.inbound == Seq::<u8>::empty(),
            c@.outbound == Seq::<u8>::empty(),
            c@.interest == (Interest { readable: false, writable: false, hangup: true }),
    {
        Connection {
            inbound: Vec::new(),
            outbound: Vec::new(),
            interest: Interest { readable: false, writable: false, hangup: true },
        }
    }

    pub fn interest(&self) -> (r: Interest)
        ensures
            r == self@.interest,
    {
        self.interest
    }

    /// The queued outbound bytes, front first, as a fresh vector.
    pub fn pending_output(&self) -> (r: Vec<u8>)
        ensures
            r@ == self@.outbound,
    {
        copy_range(&self.outbound, 0, self.outbound.len())
    }

    /// Re-arms readable interest; every re-registration cycle must do this,
    /// since ingestion suppresses it.
    pub fn arm_readable(&mut self)
        requires
            old(self)@.wf(),
        ensures
            final(self)@.wf(),
            final(self)@.inbound == old(self)@.inbound,
            final(self)@.outbound == old(self)@.outbound,
            final(self)@.interest == (Interest {
                readable: true,
                writable: old(self)@.interest.writable,
                hangup: old(self)@.interest.hangup,
            }),
    {
        self.interest.readable = true;
    }

    /// Appends newly read bytes to the accumulator, extracts every complete
    /// frame in arrival order, parses each into a command, and keeps the
    /// trailing partial frame. Readable interest is suppressed until
    /// re-armed; the outbound queue is untouched.
    pub fn ingest(&mut self, data: &[u8]) -> (cmds: Vec<Command>)
        requires
            old(self)@.wf(),
        ensures
            final(self)@.wf(),
            final(self)@.inbound == residue_of(old(self)@.inbound + data@),
            cmds@.map_values(|c: Command| c@) == commands_of(old(self)@.inbound + data@),
            final(self)@.outbound == old(self)@.outbound,
            final(self)@.interest == (Interest {
                readable: false,
                writable: old(self)@.interest.writable,
                hangup: old(self)@.interest.hangup,
            }),
    {
        let ghost orig_in = self.inbound@;
        let ghost orig_out = self.outbound@;
        let ghost orig_interest = self.interest;
        let mut j: usize = 0;
        while j < data.len()
            invariant
                0 <= j <= data@.len(),
                self.inbound@ == orig_in + data@.take(j as int),
                self.outbound@ == orig_out,
                self.interest == orig_interest,
            decreases data@.len() - j,
        {
            self.inbound.push(data[j]);
            j = j + 1;
            assert(self.inbound@ =~= orig_in + data@.take(j as int));
        }
        assert(self.inbound@ =~= orig_in + data@);
        let ghost t = self.inbound@;
        let mut cmds: Vec<Command> = Vec::new();
        let mut lo: usize = 0;
        let mut i: usize = 0;
        while i < self.inbound.len()
            invariant
                self.inbound@ == t,
                self.outbound@ == orig_out,
                self.interest == orig_interest,
                0 <= lo <= i <= t.len(),
                cmds@.map_values(|c: Command| c@) == commands_of(t.take(i as int)),
                residue_of(t.take(i as int)) == t.subrange(lo as int, i as int),
                forall|k: int| lo <= k < i ==> t[k] != delimiter(),
            decreases t.len() - i,
        {
            assert(t.take(i + 1).drop_last() =~= t.take(i as int));
            assert(t.take(i + 1).last() == t[i as int]);
            let b = self.inbound[i];
            if b == 10 {
                let line = copy_range(&self.inbound, lo, i);
                assert(line@ == residue_of(t.take(i as int)));
                let c = Command::parse(line.as_slice());
                let ghost prev_models = cmds@.map_values(|c: Command| c@);
                cmds.push(c);
                let ghost fr = frames_of(t.take(i as int));
                let ghost res = residue_of(t.take(i as int));
                assert(frames_of(t.take(i + 1)) == fr.push(res));
                assert(commands_of(t.take(i + 1)) =~= commands_of(t.take(i as int)).push(
                    parse_model(res),
                ));
                assert(c@ == parse_model(res));
                assert(cmds@.map_values(|c: Command| c@) =~= prev_models.push(c@));
                lo = i + 1;
                assert(residue_of(t.take(i + 1)) =~= t.subrange(lo as int, i + 1));
            } else {
                assert(frames_of(t.take(i + 1)) == frames_of(t.take(i as int)));
                assert(cmds@.map_values(|c: Command| c@) =~= commands_of(t.take(i + 1)));
                assert(residue_of(t.take(i + 1)) == residue_of(t.take(i as int)).push(t[i as int]));
                assert(residue_of(t.take(i + 1)) =~= t.subrange(lo as int, i + 1));
            }
            i = i + 1;
        }
        assert(t.take(t.len() as int) =~= t);
        let hi = self.inbound.len();
        let rest = copy_range(&self.inbound, lo, hi);
        self.inbound = rest;
        self.interest.readable = false;
        cmds
    }

    /// Appends a response line (the message plus one delimiter) to the
    /// outbound queue and asserts writable interest.
    pub fn enqueue_response(&mut self, msg: &[u8])
        requires
            old(self)@.wf(),
        ensures
            final(self)@.wf(),
            final(self)@.outbound == old(self)@.outbound + msg@ + seq![delimiter()],
            final(self)@.inbound == old(self)@.inbound,
            final(self)@.interest == (Interest {
                readable: old(self)@.interest.readable,
                writable: true,
                hangup: old(self)@.interest.hangup,
            }),
    {
        let ghost orig_out = self.outbound@;
        let ghost orig_in = self.inbound@;
        let ghost orig_interest = self.interest;
        let mut j: usize = 0;
        while j < msg.len()
            invariant
                0 <= j <= msg@.len(),
                self.outbound@ == orig_out + msg@.take(j as int),
                self.inbound@ == orig_in,
                self.interest == orig_interest,
            decreases msg@.len() - j,
        {
            self.outbound.push(msg[j]);
            j = j + 1;
            assert(self.outbound@ =~= orig_out + msg@.take(j as int));
        }
        self.outbound.push(10);
        self.interest.writable = true;
        assert(self.outbound@ =~= orig_out + msg@ + seq![delimiter()]);
    }

    /// Removes the first `n` bytes of the outbound queue, after a write
    /// drained them; writable interest stays asserted exactly while bytes
    /// remain queued.
    pub fn consume_written(&mut self, n: usize)
        requires
            old(self)@.wf(),
            n <= old(self)@.outbound.len(),
        ensures
            final(self)@.wf(),
            final(self)@.outbound == old(self)@.outbound.skip(n as int),
            final(self)@.inbound == old(self)@.inbound,
            final(self)@.interest == (Interest {
                readable: old(self)@.interest.readable,
                writable: old(self)@.outbound.len() - n > 0,
                hangup: old(self)@.interest.hangup,
            }),
    {
        let hi = self.outbound.len();
        let rest = copy_range(&self.outbound, n, hi);
        let nonempty = rest.len() > 0;
        self.outbound = rest;
        self.interest.writable = nonempty;
        assert(self.outbound@ =~= old(self)@.outbound.skip(n as int));
    }
}

} // verus!
