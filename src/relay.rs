use vstd::prelude::*;

use crate::lines::concat;
use crate::slots::{lemma_count_bound, lemma_count_update, Admission, SlotTable, LISTENER, MAX_CLIENTS};

verus! {

/// Sent once to a connection that was accepted while every slot was taken.
pub const REJECTION_MESSAGE: &'static str = "Error: Maximum number of clients already connected.";

/// Which socket a readiness event is for.
#[derive(Debug, PartialEq, Eq, Structural)]
pub enum EventTarget {
    Listener,
    Client(usize),
    /// A token that no socket was registered with.
    Unknown,
}

/// How a non-blocking socket operation failed.
#[derive(Debug, PartialEq, Eq, Structural)]
pub enum IoFailure {
    /// Not ready yet; readiness will be signalled again.
    WouldBlock,
    Other,
}

/// What an accept on the listening socket gave.
pub enum AcceptOutcome<S> {
    Accepted(S),
    Failed(IoFailure),
}

/// What the event loop must do after an accept.
pub enum AcceptAction<S> {
    /// Register the socket now stored under this identifier, for reading.
    Register(usize),
    /// Write `REJECTION_MESSAGE` to this socket, then close it.
    Reject(S),
    /// A spurious wake-up: nothing to do.
    Ignore,
    /// The listener failed: stop serving.
    Fatal,
}

/// What a read from a client connection gave.
pub enum ReadOutcome {
    /// The bytes read; none at all means the peer closed the connection.
    Bytes(Vec<u8>),
    Failed(IoFailure),
}

/// What the event loop must do after a read from a client.
pub enum RelayAction<S> {
    /// Write `payload` to each connection of `targets`.
    Broadcast { payload: Vec<u8>, targets: Vec<usize> },
    /// The connection was removed: deregister and drop this socket.
    Closed(S),
    /// No data yet: wait for the next readiness event.
    Idle,
    /// The read failed: stop serving.
    Fatal,
}

/// Maps the token of a readiness event to the socket it belongs to.
pub fn dispatch(token: usize) -> (r: EventTarget)
    ensures
        token == LISTENER ==> r == EventTarget::Listener,
        token < MAX_CLIENTS ==> r == EventTarget::Client(token),
        token > LISTENER ==> r == EventTarget::Unknown,
{
    if token == LISTENER {
        EventTarget::Listener
    } else if token < MAX_CLIENTS {
        EventTarget::Client(token)
    } else {
        EventTarget::Unknown
    }
}

/// Turns the result of one accept into a new slot, or a rejection when the
/// table is full. A would-block is ignored; any other failure is fatal.
pub fn handle_accept<S>(table: &mut SlotTable<S>, outcome: AcceptOutcome<S>) -> (r: AcceptAction<S>)
    requires
        old(table).wf(),
    ensures
        final(table).wf(),
        match outcome {
            AcceptOutcome::Accepted(socket) => if old(table).is_full() {
                &&& r matches AcceptAction::Reject(s) && s == socket
                &&& final(table)@ == old(table)@
            } else {
                &&& r matches AcceptAction::Register(id) && old(table).admits(*final(table), id as int, socket)
            },
            AcceptOutcome::Failed(IoFailure::WouldBlock) => r is Ignore && final(table)@ == old(table)@,
            AcceptOutcome::Failed(IoFailure::Other) => r is Fatal && final(table)@ == old(table)@,
        },
{
    match outcome {
        AcceptOutcome::Accepted(socket) => match table.allocate(socket) {
            Admission::Admitted(id) => AcceptAction::Register(id),
            Admission::CapacityExceeded(s) => AcceptAction::Reject(s),
        },
        AcceptOutcome::Failed(IoFailure::WouldBlock) => AcceptAction::Ignore,
        AcceptOutcome::Failed(IoFailure::Other) => AcceptAction::Fatal,
    }
}

/// Handles a read from connection `sender_id`. Fresh bytes are relayed to
/// every other active connection; a read of zero bytes closes the
/// connection; a would-block waits; any other failure is fatal.
pub fn handle_client<S>(table: &mut SlotTable<S>, sender_id: usize, outcome: ReadOutcome) -> (r:
    RelayAction<S>)
    requires
        old(table).wf(),
        old(table).is_active(sender_id as int),
        outcome matches ReadOutcome::Bytes(b) ==> b@.len() <= old(table).read_room(sender_id as int),
    ensures
        final(table).wf(),
        match outcome {
            ReadOutcome::Bytes(b) => if b@.len() == 0 {
                &&& r matches RelayAction::Closed(s) && s == old(table).slot(sender_id as int).socket
                &&& old(table).closes(*final(table), sender_id as int)
            } else {
                &&& r matches RelayAction::Broadcast { payload, targets } && payload@ == b@
                    && old(table).fans_out_to(sender_id as int, targets@)
                &&& old(table).relays(*final(table), sender_id as int, b@)
            },
            ReadOutcome::Failed(IoFailure::WouldBlock) => r is Idle && final(table)@ == old(table)@,
            ReadOutcome::Failed(IoFailure::Other) => r is Fatal && final(table)@ == old(table)@,
        },
{
    match outcome {
        ReadOutcome::Bytes(bytes) => {
            if bytes.len() == 0 {
                RelayAction::Closed(table.remove(sender_id))
            } else {
                let targets = table.peers_of(sender_id);
                let payload = table.record_read(sender_id, &bytes);
                RelayAction::Broadcast { payload, targets }
            }
        },
        ReadOutcome::Failed(IoFailure::WouldBlock) => RelayAction::Idle,
        ReadOutcome::Failed(IoFailure::Other) => RelayAction::Fatal,
    }
}

/// The table is full exactly when `MAX_CLIENTS` connections are active, and
/// never holds more.
pub proof fn lemma_full_iff_at_capacity<S>(t: SlotTable<S>)
    requires
        t.wf(),
    ensures
        t.active_count() <= MAX_CLIENTS,
        t.is_full() <==> t.active_count() == MAX_CLIENTS,
{
    lemma_count_bound(t@);
}

/// Along any run of admitted accepts from a valid table, every accept gets
/// an identifier that was free at the start, the identifiers are pairwise
/// distinct, all of them stay active, and the run is at most as long as the
/// free room of the table.
pub proof fn lemma_accept_run<S>(tables: Seq<SlotTable<S>>, ids: Seq<int>, sockets: Seq<S>)
    requires
        tables.len() == ids.len() + 1,
        sockets.len() == ids.len(),
        tables[0].wf(),
        forall|i: int| 0 <= i < ids.len() ==> #[trigger] tables[i].admits(tables[i + 1], ids[i], sockets[i]),
    ensures
        tables.last().wf(),
        tables.last().active_count() == tables[0].active_count() + ids.len(),
        tables[0].active_count() + ids.len() <= MAX_CLIENTS,
        forall|i: int, j: int| 0 <= i < j < ids.len() ==> ids[i] != ids[j],
        forall|i: int| 0 <= i < ids.len() ==> #[trigger] tables.last().is_active(ids[i]),
        forall|i: int| 0 <= i < ids.len() ==> !tables[0].is_active(#[trigger] ids[i]),
        forall|id: int| #[trigger] tables[0].is_active(id) ==> tables.last().is_active(id),
    decreases ids.len(),
{
    let n = ids.len();
    if n == 0 {
        lemma_full_iff_at_capacity(tables[0]);
    } else {
        let tp = tables.drop_last();
        let ip = ids.drop_last();
        let sp = sockets.drop_last();
        assert forall|i: int| 0 <= i < ip.len() implies #[trigger] tp[i].admits(tp[i + 1], ip[i], sp[i]) by {
            assert(tables[i].admits(tables[i + 1], ids[i], sockets[i]));
        }
        lemma_accept_run(tp, ip, sp);
        let prev = tables[n - 1];
        let last = tables[n as int];
        assert(tp.last() == prev);
        assert(prev.admits(last, ids[n - 1], sockets[n - 1]));
        lemma_full_iff_at_capacity(last);
        assert forall|i: int| 0 <= i < n implies #[trigger] tables.last().is_active(ids[i]) by {
            if i < n - 1 {
                assert(prev.is_active(ip[i]));
                assert(last@[ids[i]] == prev@[ids[i]]);
            }
        }
        assert forall|i: int, j: int| 0 <= i < j < n implies ids[i] != ids[j] by {
            if j == n - 1 {
                assert(prev.is_active(ip[i]));
            } else {
                assert(ip[i] != ip[j]);
            }
        }
        assert forall|i: int| 0 <= i < n implies !tables[0].is_active(#[trigger] ids[i]) by {
            if i < n - 1 {
                assert(!tables[0].is_active(ip[i]));
            } else if tables[0].is_active(ids[i]) {
                assert(tp.last().is_active(ids[i]));
            }
        }
        assert forall|id: int| #[trigger] tables[0].is_active(id) implies tables.last().is_active(id) by {
            assert(tp.last().is_active(id));
            if id != ids[n - 1] {
                assert(last@[id] == prev@[id]);
            }
        }
    }
}

/// Once a connection has closed, its identifier is free: the table has room,
/// so the next accept is admitted, under that identifier or a lower free one,
/// and no broadcast from any sender targets it.
pub proof fn lemma_closed_identifier_reusable<S>(t0: SlotTable<S>, t1: SlotTable<S>, id: int)
    requires
        t0.wf(),
        t0.is_active(id),
        t0.closes(t1, id),
    ensures
        !t1.is_full(),
        !t1.is_active(id),
        forall|sender: int| !#[trigger] t1.is_peer(sender, id),
        forall|sender: int, targets: Seq<usize>| #[trigger] t1.fans_out_to(sender, targets) ==> !targets.contains(
            id as usize,
        ),
        forall|t2: SlotTable<S>, new_id: int, s: S| #[trigger] t1.admits(t2, new_id, s) ==> new_id <= id,
{
    assert(t1@[id] is None);
    assert(!t1.is_active(id));
    assert forall|sender: int, targets: Seq<usize>| #[trigger] t1.fans_out_to(sender, targets) implies !targets.contains(
        id as usize,
    ) by {
        if targets.contains(id as usize) {
            let k = choose|k: int| 0 <= k < targets.len() && targets[k] == id as usize;
            assert(t1.is_peer(sender, targets[k] as int));
        }
    }
}

/// A broadcast reaches every active connection but its sender, and never the
/// sender itself.
pub proof fn lemma_broadcast_reaches_every_peer<S>(t: SlotTable<S>, sender: int, targets: Seq<usize>, peer: int)
    requires
        t.wf(),
        t.fans_out_to(sender, targets),
        t.is_active(sender),
        t.is_active(peer),
        peer != sender,
    ensures
        targets.contains(peer as usize),
        !targets.contains(sender as usize),
{
    assert(t.is_peer(sender, peer));
    if targets.contains(sender as usize) {
        let k = choose|k: int| 0 <= k < targets.len() && targets[k] == sender as usize;
        assert(t.is_peer(sender, targets[k] as int));
    }
}

/// With no other connection active, a broadcast has no targets.
pub proof fn lemma_lone_sender_no_targets<S>(t: SlotTable<S>, sender: int, targets: Seq<usize>)
    requires
        t.wf(),
        t.is_active(sender),
        t.active_count() == 1,
        t.fans_out_to(sender, targets),
    ensures
        targets.len() == 0,
{
    lemma_count_update(t@, sender, None);
    let rest = t@.update(sender, None);
    lemma_count_bound(rest);
    if targets.len() > 0 {
        let id = targets[0] as int;
        assert(t.is_peer(sender, id));
        assert(rest[id] is Some);
    }
}

/// What `peer` receives from a run of broadcasts: the payloads of those
/// whose targets include it, one after the other.
pub open spec fn delivered_to(peer: usize, payloads: Seq<Seq<u8>>, targets: Seq<Seq<usize>>) -> Seq<u8>
    decreases payloads.len(),
{
    if payloads.len() == 0 {
        Seq::empty()
    } else {
        delivered_to(peer, payloads.drop_last(), targets.drop_last()) + if targets[payloads.len() - 1].contains(peer) {
            payloads.last()
        } else {
            Seq::empty()
        }
    }
}

/// Relaying keeps each sender's order: over a run of broadcasts from one
/// sender, a peer that stays connected throughout receives exactly the
/// sender's reads, in the order they were read.
pub proof fn lemma_peer_receives_in_order<S>(
    tables: Seq<SlotTable<S>>,
    payloads: Seq<Seq<u8>>,
    targets: Seq<Seq<usize>>,
    sender: int,
    peer: int,
)
    requires
        tables.len() == payloads.len(),
        targets.len() == payloads.len(),
        peer != sender,
        forall|i: int| 0 <= i < tables.len() ==> (#[trigger] tables[i]).wf() && tables[i].is_active(sender)
            && tables[i].is_active(peer) && tables[i].fans_out_to(sender, targets[i]),
    ensures
        delivered_to(peer as usize, payloads, targets) == concat(payloads),
    decreases payloads.len(),
{
    let n = payloads.len();
    if n > 0 {
        let t = tables[n - 1];
        assert(t.wf() && t.is_active(sender) && t.is_active(peer) && t.fans_out_to(sender, targets[n - 1]));
        lemma_broadcast_reaches_every_peer(t, sender, targets[n - 1], peer);
        let tp = tables.drop_last();
        assert forall|i: int| 0 <= i < tp.len() implies (#[trigger] tp[i]).wf() && tp[i].is_active(sender)
            && tp[i].is_active(peer) && tp[i].fans_out_to(sender, targets.drop_last()[i]) by {
            assert(tables[i].wf());
        }
        assert forall|i: int| 0 <= i < tp.len() implies tp[i].fans_out_to(sender, #[trigger] targets.drop_last()[i]) by {
            assert(tables[i].fans_out_to(sender, targets[i]));
        }
        lemma_peer_receives_in_order(tp, payloads.drop_last(), targets.drop_last(), sender, peer);
    }
}

} // verus!
