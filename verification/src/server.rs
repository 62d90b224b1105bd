//! The dispatcher: it owns the registry and the store, accepts new
//! connections, routes readiness events, applies each extracted command
//! against the store, and queues the textual response on the connection
//! that sent the command.

use vstd::prelude::*;
use crate::codec::{Command, CommandModel};
use crate::conn::{copy_range, ConnView, Connection, Interest};
use crate::framing::{commands_of, delimiter, residue_of};
use crate::registry::Registry;
use crate::store::Store;

verus! {

/// The acknowledgment line for a successful put: `OK`.
pub open spec fn ok_response() -> Seq<u8> {
    seq![79u8, 75u8]
}

/// The response line for a get on an unset key: `ERR not found`.
pub open spec fn not_found_response() -> Seq<u8> {
    seq![
        69u8,
        82u8,
        82u8,
        32u8,
        110u8,
        111u8,
        116u8,
        32u8,
        102u8,
        111u8,
        117u8,
        110u8,
        100u8,
    ]
}

/// The response line for a malformed command: `ERR invalid command`.
pub open spec fn invalid_response() -> Seq<u8> {
    seq![
        69u8,
        82u8,
        82u8,
        32u8,
        105u8,
        110u8,
        118u8,
        97u8,
        108u8,
        105u8,
        100u8,
        32u8,
        99u8,
        111u8,
        109u8,
        109u8,
        97u8,
        110u8,
        100u8,
    ]
}

/// What a command does to the store: a put binds its key, anything else
/// leaves the store alone.
pub open spec fn apply_model(m: Map<Seq<u8>, Seq<u8>>, c: CommandModel) -> Map<Seq<u8>, Seq<u8>> {
    match c {
        CommandModel::Put(k, v) => m.insert(k, v),
        _ => m,
    }
}

/// The response line (without its delimiter) that a command earns against
/// a store state.
pub open spec fn response_model(m: Map<Seq<u8>, Seq<u8>>, c: CommandModel) -> Seq<u8> {
    match c {
        CommandModel::Get(k) => if m.contains_key(k) {
            m[k]
        } else {
            not_found_response()
        },
        CommandModel::Put(k, v) => ok_response(),
        CommandModel::Malformed => invalid_response(),
    }
}

/// The store state after a command sequence is applied in order.
pub open spec fn run_commands(m: Map<Seq<u8>, Seq<u8>>, cs: Seq<CommandModel>) -> Map<
    Seq<u8>,
    Seq<u8>,
>
    decreases cs.len(),
{
    if cs.len() == 0 {
        m
    } else {
        run_commands(apply_model(m, cs[0]), cs.skip(1))
    }
}

/// The response bytes a command sequence earns, each line delimited, with
/// the store state threaded through in order.
pub open spec fn responses_for(m: Map<Seq<u8>, Seq<u8>>, cs: Seq<CommandModel>) -> Seq<u8>
    decreases cs.len(),
{
    if cs.len() == 0 {
        Seq::empty()
    } else {
        response_model(m, cs[0]) + seq![delimiter()] + responses_for(
            apply_model(m, cs[0]),
            cs.skip(1),
        )
    }
}

/// Store round-trip: after a put of `v` under `k` is applied, a get of `k`
/// answers `v`; a get of an unset key answers the not-found line, never a
/// fault.
pub proof fn lemma_store_round_trip(m: Map<Seq<u8>, Seq<u8>>, k: Seq<u8>, v: Seq<u8>)
    ensures
        response_model(apply_model(m, CommandModel::Put(k, v)), CommandModel::Get(k)) == v,
        !m.contains_key(k) ==> response_model(m, CommandModel::Get(k)) == not_found_response(),
{
}

/// Overwrite: two puts under one key in order, then a get, answer the
/// second value.
pub proof fn lemma_overwrite(m: Map<Seq<u8>, Seq<u8>>, k: Seq<u8>, v1: Seq<u8>, v2: Seq<u8>)
    ensures
        response_model(
            apply_model(apply_model(m, CommandModel::Put(k, v1)), CommandModel::Put(k, v2)),
            CommandModel::Get(k),
        ) == v2,
{
}

/// Teardown isolation: removing connection `x` leaves every other
/// connection's state, pending responses included, exactly as it was.
pub proof fn lemma_teardown_isolation(conns: Map<u64, ConnView>, x: u64, y: u64)
    requires
        x != y,
        conns.contains_key(y),
    ensures
        conns.remove(x).contains_key(y),
        conns.remove(x)[y] == conns[y],
{
}

fn ok_line() -> (r: Vec<u8>)
    ensures
        r@ == ok_response(),
{
    let mut r: Vec<u8> = Vec::new();
    r.push(79);
    r.push(75);
    assert(r@ =~= ok_response());
    r
}

fn not_found_line() -> (r: Vec<u8>)
    ensures
        r@ == not_found_response(),
{
    let mut r: Vec<u8> = Vec::new();
    r.push(69);
    r.push(82);
    r.push(82);
    r.push(32);
    r.push(110);
    r.push(111);
    r.push(116);
    r.push(32);
    r.push(102);
    r.push(111);
    r.push(117);
    r.push(110);
    r.push(100);
    assert(r@ =~= not_found_response());
    r
}

fn invalid_line() -> (r: Vec<u8>)
    ensures
        r@ == invalid_response(),
{
    let mut r: Vec<u8> = Vec::new();
    r.push(69);
    r.push(82);
    r.push(82);
    r.push(32);
    r.push(105);
    r.push(110);
    r.push(118);
    r.push(97);
    r.push(108);
    r.push(105);
    r.push(100);
    r.push(32);
    r.push(99);
    r.push(111);
    r.push(109);
    r.push(109);
    r.push(97);
    r.push(110);
    r.push(100);
    assert(r@ =~= invalid_response());
    r
}

/// Applies one command against the store and returns its response line,
/// without the delimiter.
pub fn apply_command(store: &mut Store, cmd: &Command) -> (resp: Vec<u8>)
    requires
        old(store).wf(),
    ensures
        final(store).wf(),
        final(store)@ == apply_model(old(store)@, cmd@),
        resp@ == response_model(old(store)@, cmd@),
{
    match cmd {
        Command::Get(k) => {
            match store.get(k.as_slice()) {
                Some(v) => v,
                None => not_found_line(),
            }
        },
        Command::Put(k, v) => {
            let key = copy_range(k, 0, k.len());
            let value = copy_range(v, 0, v.len());
            assert(key@ =~= k@);
            assert(value@ =~= v@);
            store.put(key, value);
            ok_line()
        },
        Command::Malformed => invalid_line(),
    }
}

/// One routing decision of the event loop.
#[derive(Clone, Copy, PartialEq, Eq, Structural, Debug)]
pub enum Action {
    Accept,
    ReadConn(u64),
    WriteConn(u64),
}

/// How one readiness event is routed: a readable listener accepts, a
/// readable client drains inbound, a writable client drains outbound; a
/// writable event on the listener is ignored.
pub open spec fn route_model(listener: u64, token: u64, readable: bool, writable: bool) -> Seq<
    Action,
> {
    (if readable {
        if token == listener {
            seq![Action::Accept]
        } else {
            seq![Action::ReadConn(token)]
        }
    } else {
        Seq::empty()
    }) + (if writable && token != listener {
        seq![Action::WriteConn(token)]
    } else {
        Seq::empty()
    })
}

/// Routes one readiness event to the actions the dispatcher must take, in
/// order.
pub fn route_event(listener: u64, token: u64, readable: bool, writable: bool) -> (acts: Vec<
    Action,
>)
    ensures
        acts@ == route_model(listener, token, readable, writable),
{
    let mut acts: Vec<Action> = Vec::new();
    if readable {
        if token == listener {
            acts.push(Action::Accept);
        } else {
            acts.push(Action::ReadConn(token));
        }
    }
    if writable && token != listener {
        acts.push(Action::WriteConn(token));
    }
    assert(acts@ =~= route_model(listener, token, readable, writable));
    acts
}

/// The server: the connection registry and the store, driven by readiness
/// events.
pub struct Server {
    registry: Registry,
    store: Store,
}

impl Server {
    /// The registered connections, by handle.
    pub closed spec fn conns(self) -> Map<u64, ConnView> {
        self.registry@
    }

    /// The store contents.
    pub closed spec fn store_map(self) -> Map<Seq<u8>, Seq<u8>> {
        self.store@
    }

    /// How many handles have been issued; handles are never reused.
    pub closed spec fn issued(self) -> u64 {
        self.registry.next()
    }

    pub closed spec fn wf(self) -> bool {
        self.registry.wf() && self.store.wf()
    }

    /// Whether another handle can still be issued.
    pub open spec fn can_accept(self) -> bool {
        self.issued() < u64::MAX
    }

    /// Whether another connection can be accepted.
    pub fn can_accept_now(&self) -> (r: bool)
        ensures
            r == self.can_accept(),
    {
        self.registry.can_issue()
    }

    /// A fresh server: no connections, an empty store.
    pub fn new() -> (s: Server)
        ensures
            s.wf(),
            s.conns() == Map::<u64, ConnView>::empty(),
            s.store_map() == Map::<Seq<u8>, Seq<u8>>::empty(),
            s.issued() == 0,
    {
        Server { registry: Registry::new(), store: Store::new() }
    }

    /// Accepts one new connection: registers fresh, empty per-connection
    /// state under a never-before-issued handle, armed for reading.
    pub fn on_accept(&mut self) -> (h: u64)
        requires
            old(self).wf(),
            old(self).can_accept(),
        ensures
            final(self).wf(),
            final(self).store_map() == old(self).store_map(),
            h == old(self).issued(),
            final(self).issued() == h + 1,
            !old(self).conns().contains_key(h),
            final(self).conns() == old(self).conns().insert(
                h,
                (ConnView {
                    inbound: Seq::empty(),
                    outbound: Seq::empty(),
                    interest: Interest { readable: true, writable: false, hangup: true },
                }),
            ),
    {
        let mut conn = Connection::new();
        conn.arm_readable();
        self.registry.insert(conn)
    }

    /// Handles bytes read from a client: ingests them, extracts and parses
    /// every complete frame, applies each command to the store in arrival
    /// order, and queues each response on that same connection. A handle
    /// no longer registered is ignored.
    pub fn on_data(&mut self, h: u64, data: &[u8]) -> (found: bool)
        requires
            old(self).wf(),
        ensures
            final(self).wf(),
            final(self).issued() == old(self).issued(),
            found == old(self).conns().contains_key(h),
            !found ==> final(self).conns() == old(self).conns() && final(self).store_map() == old(
                self,
            ).store_map(),
            found ==> ({
                let c = old(self).conns()[h];
                let cmds = commands_of(c.inbound + data@);
                let out = c.outbound + responses_for(old(self).store_map(), cmds);
                &&& final(self).store_map() == run_commands(old(self).store_map(), cmds)
                &&& final(self).conns() == old(self).conns().insert(
                    h,
                    (ConnView {
                        inbound: residue_of(c.inbound + data@),
                        outbound: out,
                        interest: Interest {
                            readable: false,
                            writable: out.len() > 0,
                            hangup: c.interest.hangup,
                        },
                    }),
                )
            }),
    {
        match self.registry.remove(h) {
            None => false,
            Some(mut conn) => {
                let ghost c0 = conn@;
                let ghost m0 = self.store@;
                let ghost reg0 = self.registry;
                let cmds = conn.ingest(data);
                let ghost models = cmds@.map_values(|c: Command| c@);
                assert(models.skip(0) =~= models);
                let mut i: usize = 0;
                while i < cmds.len()
                    invariant
                        self.store.wf(),
                        conn@.wf(),
                        self.registry == reg0,
                        0 <= i <= cmds@.len(),
                        models == cmds@.map_values(|c: Command| c@),
                        run_commands(self.store@, models.skip(i as int)) == run_commands(
                            m0,
                            models,
                        ),
                        conn@.outbound + responses_for(self.store@, models.skip(i as int))
                            == c0.outbound + responses_for(m0, models),
                        conn@.inbound == residue_of(c0.inbound + data@),
                        conn@.interest.readable == false,
                        conn@.interest.hangup == c0.interest.hangup,
                    decreases cmds@.len() - i,
                {
                    let ghost mcur = self.store@;
                    let ghost outcur = conn@.outbound;
                    assert(models.skip(i as int)[0] == models[i as int]);
                    assert(models.skip(i as int).skip(1) =~= models.skip(i + 1));
                    assert(cmds@[i as int]@ == models[i as int]);
                    let resp = apply_command(&mut self.store, &cmds[i]);
                    conn.enqueue_response(resp.as_slice());
                    assert(run_commands(mcur, models.skip(i as int)) == run_commands(
                        self.store@,
                        models.skip(i + 1),
                    ));
                    assert(responses_for(mcur, models.skip(i as int)) == response_model(
                        mcur,
                        models[i as int],
                    ) + seq![delimiter()] + responses_for(self.store@, models.skip(i + 1)));
                    assert(conn@.outbound + responses_for(self.store@, models.skip(i + 1))
                        =~= outcur + responses_for(mcur, models.skip(i as int)));
                    i = i + 1;
                }
                assert(models.skip(models.len() as int) =~= Seq::<CommandModel>::empty());
                assert(conn@.outbound =~= c0.outbound + responses_for(m0, models));
                self.registry.restore(h, conn);
                assert(final(self).conns() =~= old(self).conns().insert(h, conn@));
                true
            },
        }
    }

    /// Notes that `n` front bytes of a connection's outbound queue were
    /// written out; writable interest stays asserted exactly while bytes
    /// remain. A handle no longer registered is ignored.
    pub fn on_written(&mut self, h: u64, n: usize) -> (found: bool)
        requires
            old(self).wf(),
            old(self).conns().contains_key(h) ==> n <= old(self).conns()[h].outbound.len(),
        ensures
            final(self).wf(),
            final(self).issued() == old(self).issued(),
            final(self).store_map() == old(self).store_map(),
            found == old(self).conns().contains_key(h),
            !found ==> final(self).conns() == old(self).conns(),
            found ==> ({
                let c = old(self).conns()[h];
                final(self).conns() == old(self).conns().insert(
                    h,
                    (ConnView {
                        inbound: c.inbound,
                        outbound: c.outbound.skip(n as int),
                        interest: Interest {
                            readable: c.interest.readable,
                            writable: c.outbound.len() - n > 0,
                            hangup: c.interest.hangup,
                        },
                    }),
                )
            }),
    {
        match self.registry.remove(h) {
            None => false,
            Some(mut conn) => {
                conn.consume_written(n);
                self.registry.restore(h, conn);
                assert(final(self).conns() =~= old(self).conns().insert(h, conn@));
                true
            },
        }
    }

    /// Re-arms readable interest on a connection; the event loop does this
    /// on every re-registration cycle, since ingestion suppresses it. A
    /// handle no longer registered is ignored.
    pub fn rearm_readable(&mut self, h: u64) -> (found: bool)
        requires
            old(self).wf(),
        ensures
            final(self).wf(),
            final(self).issued() == old(self).issued(),
            final(self).store_map() == old(self).store_map(),
            found == old(self).conns().contains_key(h),
            !found ==> final(self).conns() == old(self).conns(),
            found ==> ({
                let c = old(self).conns()[h];
                final(self).conns() == old(self).conns().insert(
                    h,
                    (ConnView {
                        inbound: c.inbound,
                        outbound: c.outbound,
                        interest: Interest {
                            readable: true,
                            writable: c.interest.writable,
                            hangup: c.interest.hangup,
                        },
                    }),
                )
            }),
    {
        match self.registry.remove(h) {
            None => false,
            Some(mut conn) => {
                conn.arm_readable();
                self.registry.restore(h, conn);
                assert(final(self).conns() =~= old(self).conns().insert(h, conn@));
                true
            },
        }
    }

    /// Tears one connection down. The store and every other connection are
    /// untouched: a fatal error on one connection never reaches another.
    pub fn drop_connection(&mut self, h: u64) -> (found: bool)
        requires
            old(self).wf(),
        ensures
            final(self).wf(),
            final(self).issued() == old(self).issued(),
            final(self).store_map() == old(self).store_map(),
            found == old(self).conns().contains_key(h),
            final(self).conns() == old(self).conns().remove(h),
    {
        match self.registry.remove(h) {
            None => {
                assert(final(self).conns() =~= old(self).conns().remove(h));
                false
            },
            Some(_) => true,
        }
    }

    /// The readiness interest of a connection, for re-registration.
    pub fn interest_of(&self, h: u64) -> (r: Option<Interest>)
        requires
            self.wf(),
        ensures
            match r {
                Some(it) => self.conns().contains_key(h) && it == self.conns()[h].interest,
                None => !self.conns().contains_key(h),
            },
    {
        self.registry.interest_of(h)
    }

    /// The queued outbound bytes of a connection, front first.
    pub fn pending_output(&self, h: u64) -> (r: Option<Vec<u8>>)
        requires
            self.wf(),
        ensures
            match r {
                Some(v) => self.conns().contains_key(h) && v@ == self.conns()[h].outbound,
                None => !self.conns().contains_key(h),
            },
    {
        self.registry.pending_of(h)
    }
}

} // verus!
