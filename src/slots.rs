use vstd::prelude::*;

verus! {

/// The most connections served at the same time.
pub const MAX_CLIENTS: usize = 5;

/// The identifier of the listening socket, just outside the range of
/// connection identifiers so that the two never collide.
pub const LISTENER: usize = MAX_CLIENTS;

/// Size of each connection's receive buffer.
pub const BUFFER_SIZE: usize = 255;

/// State of one accepted, not yet closed connection.
pub struct ClientSlot<S> {
    pub socket: S,
    /// Number of chunks relayed from this connection (diagnostic only).
    pub num_messages: u32,
    pub incoming_buffer: Vec<u8>,
    /// Bytes currently valid at the front of `incoming_buffer`.
    pub used_bytes: usize,
}

impl<S> ClientSlot<S> {
    pub open spec fn wf(&self) -> bool {
        &&& self.incoming_buffer@.len() == BUFFER_SIZE
        &&& self.used_bytes <= BUFFER_SIZE
    }

    /// A slot just made for `socket`: empty buffer, no messages yet.
    pub open spec fn is_fresh_for(&self, socket: S) -> bool {
        &&& self.wf()
        &&& self.socket == socket
        &&& self.num_messages == 0
        &&& self.used_bytes == 0
    }

    fn new(socket: S) -> (r: ClientSlot<S>)
        ensures
            r.is_fresh_for(socket),
    {
        ClientSlot { socket, num_messages: 0, incoming_buffer: vec![0u8; BUFFER_SIZE], used_bytes: 0 }
    }
}

#[derive(Debug, PartialEq, Eq, Structural)]
pub enum SlotError {
    UnknownIdentifier,
}

/// What `allocate` made of a new socket.
pub enum Admission<S> {
    /// The socket now lives in the slot with this identifier.
    Admitted(usize),
    /// Every slot is taken; the socket is handed back untouched.
    CapacityExceeded(S),
}

/// The message counter after one more chunk; it stops at the largest value.
pub open spec fn next_count(n: u32) -> u32 {
    if n < u32::MAX { (n + 1) as u32 } else { n }
}

/// Number of occupied entries of a slot sequence.
pub open spec fn count_active<S>(s: Seq<Option<ClientSlot<S>>>) -> nat
    decreases s.len(),
{
    if s.len() == 0 {
        0
    } else {
        count_active(s.drop_last()) + if s.last() is Some { 1nat } else { 0nat }
    }
}

/// Setting one entry changes the count by the change at that entry.
pub proof fn lemma_count_update<S>(s: Seq<Option<ClientSlot<S>>>, i: int, v: Option<ClientSlot<S>>)
    requires
        0 <= i < s.len(),
    ensures
        count_active(s.update(i, v)) + (if s[i] is Some { 1nat } else { 0nat })
            == count_active(s) + (if v is Some { 1nat } else { 0nat }),
    decreases s.len(),
{
    let t = s.update(i, v);
    if i == s.len() - 1 {
        assert(t.drop_last() =~= s.drop_last());
    } else {
        lemma_count_update(s.drop_last(), i, v);
        assert(t.drop_last() =~= s.drop_last().update(i, v));
    }
}

/// The count is below the length exactly when some entry is free.
pub proof fn lemma_count_bound<S>(s: Seq<Option<ClientSlot<S>>>)
    ensures
        count_active(s) <= s.len(),
        count_active(s) == s.len() <==> (forall|i: int| 0 <= i < s.len() ==> #[trigger] s[i] is Some),
        count_active(s) == 0 <==> (forall|i: int| 0 <= i < s.len() ==> #[trigger] s[i] is None),
    decreases s.len(),
{
    if s.len() > 0 {
        lemma_count_bound(s.drop_last());
        if forall|i: int| 0 <= i < s.len() ==> #[trigger] s[i] is None {
            assert forall|i: int| 0 <= i < s.drop_last().len() implies #[trigger] s.drop_last()[i] is None by {
                assert(s[i] is None);
            }
        }
        if count_active(s) == 0 {
            assert forall|i: int| 0 <= i < s.len() implies #[trigger] s[i] is None by {
                if i < s.len() - 1 {
                    assert(s.drop_last()[i] is None);
                }
            }
        }
        if forall|i: int| 0 <= i < s.len() ==> #[trigger] s[i] is Some {
            assert forall|i: int| 0 <= i < s.drop_last().len() implies #[trigger] s.drop_last()[i] is Some by {
                assert(s[i] is Some);
            }
        }
        if count_active(s) == s.len() {
            assert forall|i: int| 0 <= i < s.len() implies #[trigger] s[i] is Some by {
                if i < s.len() - 1 {
                    assert(s.drop_last()[i] is Some);
                }
            }
        }
    }
}

/// A bounded arena of connection slots, indexed by identifiers
/// `0 .. MAX_CLIENTS`.
pub struct SlotTable<S> {
    slots: Vec<Option<ClientSlot<S>>>,
}

impl<S> View for SlotTable<S> {
    type V = Seq<Option<ClientSlot<S>>>;

    closed spec fn view(&self) -> Seq<Option<ClientSlot<S>>> {
        self.slots@
    }
}

impl<S> SlotTable<S> {
    pub open spec fn wf(&self) -> bool {
        &&& self@.len() == MAX_CLIENTS
        &&& forall|i: int| 0 <= i < self@.len() && #[trigger] self@[i] is Some ==> self@[i]->0.wf()
    }

    pub open spec fn is_active(&self, id: int) -> bool {
        0 <= id < self@.len() && self@[id] is Some
    }

    pub open spec fn slot(&self, id: int) -> ClientSlot<S> {
        self@[id]->0
    }

    pub open spec fn active_count(&self) -> nat {
        count_active(self@)
    }

    pub open spec fn is_full(&self) -> bool {
        forall|i: int| 0 <= i < self@.len() ==> #[trigger] self@[i] is Some
    }

    /// An empty table with room for `MAX_CLIENTS` connections.
    pub fn new() -> (r: SlotTable<S>)
        ensures
            r.wf(),
            forall|i: int| !#[trigger] r.is_active(i),
    {
        let mut slots: Vec<Option<ClientSlot<S>>> = Vec::new();
        let mut i: usize = 0;
        while i < MAX_CLIENTS
            invariant
                i <= MAX_CLIENTS,
                slots@.len() == i,
                forall|j: int| 0 <= j < i ==> #[trigger] slots@[j] is None,
            decreases MAX_CLIENTS - i,
        {
            slots.push(None);
            i = i + 1;
        }
        SlotTable { slots }
    }

    /// Whether `id` names an active connection.
    pub fn contains(&self, id: usize) -> (r: bool)
        ensures
            r == self.is_active(id as int),
    {
        id < self.slots.len() && self.slots[id].is_some()
    }

    /// Number of active connections.
    pub fn len(&self) -> (r: usize)
        requires
            self.wf(),
        ensures
            r == self.active_count(),
    {
        let mut n: usize = 0;
        let mut i: usize = 0;
        while i < self.slots.len()
            invariant
                i <= self.slots@.len(),
                self.slots@.len() == MAX_CLIENTS,
                n == count_active(self.slots@.subrange(0, i as int)),
                n <= i,
            decreases self.slots@.len() - i,
        {
            assert(self.slots@.subrange(0, i + 1).drop_last() =~= self.slots@.subrange(0, i as int));
            if self.slots[i].is_some() {
                n = n + 1;
            }
            i = i + 1;
        }
        assert(self.slots@.subrange(0, i as int) =~= self.slots@);
        n
    }

    /// Whether every slot is taken.
    pub fn is_at_capacity(&self) -> (r: bool)
        requires
            self.wf(),
        ensures
            r == self.is_full(),
            r == (self.active_count() == MAX_CLIENTS),
    {
        proof {
            lemma_count_bound(self@);
        }
        let mut i: usize = 0;
        while i < self.slots.len()
            invariant
                i <= self.slots@.len(),
                self.wf(),
                forall|j: int| 0 <= j < i ==> #[trigger] self@[j] is Some,
            decreases self.slots@.len() - i,
        {
            if self.slots[i].is_none() {
                proof {
                    lemma_count_bound(self@);
                }
                assert(!(self@[i as int] is Some));
                return false;
            }
            i = i + 1;
        }
        true
    }

    /// Reserves the lowest free identifier for `socket`, with a fresh slot.
    /// Fails when all `MAX_CLIENTS` slots are taken.
    pub fn allocate(&mut self, socket: S) -> (r: Admission<S>)
        requires
            old(self).wf(),
        ensures
            final(self).wf(),
            match r {
                Admission::Admitted(id) => old(self).admits(*final(self), id as int, socket),
                Admission::CapacityExceeded(s) => {
                    &&& s == socket
                    &&& old(self).is_full()
                    &&& old(self).active_count() == MAX_CLIENTS
                    &&& final(self)@ == old(self)@
                },
            },
    {
        proof {
            lemma_count_bound(self@);
        }
        let mut i: usize = 0;
        while i < self.slots.len()
            invariant
                i <= self.slots@.len(),
                self.wf(),
                self == old(self),
                forall|j: int| 0 <= j < i ==> #[trigger] self@[j] is Some,
            decreases self.slots@.len() - i,
        {
            if self.slots[i].is_none() {
                let slot = ClientSlot::new(socket);
                proof {
                    lemma_count_update(self@, i as int, Some(slot));
                }
                self.slots.set(i, Some(slot));
                return Admission::Admitted(i);
            }
            i = i + 1;
        }
        Admission::CapacityExceeded(socket)
    }

    /// The slot of an active connection.
    pub fn get(&self, id: usize) -> (r: Result<&ClientSlot<S>, SlotError>)
        ensures
            match r {
                Ok(slot) => self.is_active(id as int) && *slot == self.slot(id as int),
                Err(e) => !self.is_active(id as int) && e == SlotError::UnknownIdentifier,
            },
    {
        if id < self.slots.len() {
            match &self.slots[id] {
                Some(slot) => Ok(slot),
                None => Err(SlotError::UnknownIdentifier),
            }
        } else {
            Err(SlotError::UnknownIdentifier)
        }
    }

    /// The socket of an active connection, for the caller's own I/O.
    pub fn socket_mut(&mut self, id: usize) -> (r: &mut S)
        requires
            old(self).wf(),
            old(self).is_active(id as int),
        ensures
            final(self).wf(),
            final(self).is_active(id as int),
            *r == old(self).slot(id as int).socket,
            final(self)@ == old(self)@.update(
                id as int,
                Some(ClientSlot { socket: *final(r), ..old(self).slot(id as int) }),
            ),
    {
        match &mut self.slots[id] {
            Some(slot) => &mut slot.socket,
            None => {
                vstd::pervasive::unreached()
            },
        }
    }

    /// Room left in the receive buffer of connection `id`.
    pub open spec fn read_room(&self, id: int) -> int {
        BUFFER_SIZE - self.slot(id).used_bytes
    }

    /// `next` is this table after `socket` was stored under the lowest free
    /// identifier `id`, in a fresh slot.
    pub open spec fn admits(&self, next: Self, id: int, socket: S) -> bool {
        &&& next.wf()
        &&& 0 <= id < MAX_CLIENTS
        &&& !self.is_active(id)
        &&& forall|j: int| 0 <= j < id ==> #[trigger] self.is_active(j)
        &&& next.is_active(id)
        &&& next.slot(id).is_fresh_for(socket)
        &&& next@ == self@.update(id, next@[id])
        &&& next.active_count() == self.active_count() + 1
    }

    /// `next` is this table after the slot of `id` was destroyed.
    pub open spec fn closes(&self, next: Self, id: int) -> bool {
        &&& next.wf()
        &&& next@ == self@.update(id, None)
        &&& next.active_count() + 1 == self.active_count()
    }

    /// `targets` lists, in increasing order, every connection but `sender`.
    pub open spec fn fans_out_to(&self, sender: int, targets: Seq<usize>) -> bool {
        &&& forall|k: int| 0 <= k < targets.len() ==> self.is_peer(sender, #[trigger] targets[k] as int)
        &&& forall|k: int, l: int| 0 <= k < l < targets.len() ==> targets[k] < targets[l]
        &&& forall|id: int| #[trigger] self.is_peer(sender, id) ==> targets.contains(id as usize)
    }

    /// `next` is this table after `bytes` were read from `sender` and
    /// relayed: only the sender's slot changed, its buffer is free again and
    /// its counter advanced.
    pub open spec fn relays(&self, next: Self, sender: int, bytes: Seq<u8>) -> bool {
        &&& next.wf()
        &&& next.is_active(sender)
        &&& next@ == self@.update(sender, next@[sender])
        &&& next.slot(sender).socket == self.slot(sender).socket
        &&& next.slot(sender).used_bytes == 0
        &&& next.slot(sender).num_messages == next_count(self.slot(sender).num_messages)
        &&& next.slot(sender).incoming_buffer@ == self.slot(sender).incoming_buffer@.subrange(
            0,
            self.slot(sender).used_bytes as int,
        ) + bytes + self.slot(sender).incoming_buffer@.subrange(
            self.slot(sender).used_bytes + bytes.len(),
            BUFFER_SIZE as int,
        )
    }

    /// Whether `id` is an active connection other than `sender`.
    pub open spec fn is_peer(&self, sender: int, id: int) -> bool {
        self.is_active(id) && id != sender
    }

    /// The active identifiers other than `sender`, in increasing order.
    pub fn peers_of(&self, sender: usize) -> (r: Vec<usize>)
        requires
            self.wf(),
        ensures
            forall|k: int| 0 <= k < r@.len() ==> self.is_peer(sender as int, #[trigger] r@[k] as int),
            forall|k: int, l: int| 0 <= k < l < r@.len() ==> r@[k] < r@[l],
            forall|id: int| #[trigger] self.is_peer(sender as int, id) ==> r@.contains(id as usize),
    {
        let mut r: Vec<usize> = Vec::new();
        let mut i: usize = 0;
        while i < self.slots.len()
            invariant
                i <= self.slots@.len(),
                self.wf(),
                forall|k: int| 0 <= k < r@.len() ==> r@[k] < i,
                forall|k: int| 0 <= k < r@.len() ==> self.is_peer(sender as int, #[trigger] r@[k] as int),
                forall|k: int, l: int| 0 <= k < l < r@.len() ==> r@[k] < r@[l],
                forall|id: int| 0 <= id < i && #[trigger] self.is_peer(sender as int, id) ==> r@.contains(id as usize),
            decreases self.slots@.len() - i,
        {
            if i != sender && self.slots[i].is_some() {
                let ghost before = r@;
                r.push(i);
                proof {
                    assert forall|id: int| 0 <= id < i + 1 && #[trigger] self.is_peer(sender as int, id)
                        implies r@.contains(id as usize) by {
                        if id < i {
                            let k = choose|k: int| 0 <= k < before.len() && before[k] == id as usize;
                            assert(r@[k] == id as usize);
                        } else {
                            assert(r@[before.len() as int] == id as usize);
                        }
                    }
                }
            }
            i = i + 1;
        }
        r
    }

    /// Room left in the receive buffer of an active connection.
    pub fn free_space(&self, id: usize) -> (r: usize)
        requires
            self.wf(),
            self.is_active(id as int),
        ensures
            r == BUFFER_SIZE - self.slot(id as int).used_bytes,
    {
        match &self.slots[id] {
            Some(slot) => BUFFER_SIZE - slot.used_bytes,
            None => vstd::pervasive::unreached(),
        }
    }

    /// Stores `bytes`, freshly read from connection `id`, in its receive
    /// buffer after the bytes already there, and hands back exactly those
    /// fresh bytes for relaying. The buffer is then marked empty for reuse.
    pub fn record_read(&mut self, id: usize, bytes: &Vec<u8>) -> (payload: Vec<u8>)
        requires
            old(self).wf(),
            old(self).is_active(id as int),
            bytes@.len() <= BUFFER_SIZE - old(self).slot(id as int).used_bytes,
        ensures
            final(self).wf(),
            payload@ == bytes@,
            final(self).is_active(id as int),
            final(self)@ == old(self)@.update(id as int, final(self)@[id as int]),
            final(self).slot(id as int).socket == old(self).slot(id as int).socket,
            final(self).slot(id as int).used_bytes == 0,
            final(self).slot(id as int).num_messages == next_count(old(self).slot(id as int).num_messages),
            final(self).slot(id as int).incoming_buffer@ == old(self).slot(id as int).incoming_buffer@.subrange(
                0,
                old(self).slot(id as int).used_bytes as int,
            ) + bytes@ + old(self).slot(id as int).incoming_buffer@.subrange(
                old(self).slot(id as int).used_bytes + bytes@.len(),
                BUFFER_SIZE as int,
            ),
    {
        let mut taken: Option<ClientSlot<S>> = None;
        std::mem::swap(&mut taken, &mut self.slots[id]);
        let mut slot = match taken {
            Some(slot) => slot,
            None => vstd::pervasive::unreached(),
        };
        let ghost old_buf = slot.incoming_buffer@;
        let ghost orig = slot;
        assert(orig == old(self).slot(id as int));
        let start = slot.used_bytes;
        let n = bytes.len();
        let mut k: usize = 0;
        while k < n
            invariant
                k <= n,
                n == bytes@.len(),
                start + n <= BUFFER_SIZE,
                slot.incoming_buffer@.len() == BUFFER_SIZE,
                slot.incoming_buffer@ == old_buf.subrange(0, start as int) + bytes@.subrange(0, k as int)
                    + old_buf.subrange(start + k, BUFFER_SIZE as int),
                old_buf.len() == BUFFER_SIZE,
                slot.socket == orig.socket,
                slot.num_messages == orig.num_messages,
                orig == old(self).slot(id as int),
            decreases n - k,
        {
            slot.incoming_buffer.set(start + k, bytes[k]);
            k = k + 1;
            assert(slot.incoming_buffer@ =~= old_buf.subrange(0, start as int) + bytes@.subrange(0, k as int)
                + old_buf.subrange(start + k, BUFFER_SIZE as int));
        }
        assert(bytes@.subrange(0, n as int) =~= bytes@);
        let mut payload: Vec<u8> = Vec::new();
        let mut k: usize = 0;
        while k < n
            invariant
                k <= n,
                n == bytes@.len(),
                start + n <= BUFFER_SIZE,
                slot.incoming_buffer@ == old_buf.subrange(0, start as int) + bytes@
                    + old_buf.subrange(start + n, BUFFER_SIZE as int),
                old_buf.len() == BUFFER_SIZE,
                payload@ == bytes@.subrange(0, k as int),
                slot.socket == orig.socket,
                slot.num_messages == orig.num_messages,
                orig == old(self).slot(id as int),
            decreases n - k,
        {
            assert(slot.incoming_buffer@[start + k] == bytes@[k as int]);
            payload.push(slot.incoming_buffer[start + k]);
            k = k + 1;
            assert(payload@ =~= bytes@.subrange(0, k as int));
        }
        assert(payload@ =~= bytes@);
        slot.used_bytes = 0;
        if slot.num_messages < u32::MAX {
            slot.num_messages = slot.num_messages + 1;
        }
        self.slots.set(id, Some(slot));
        payload
    }

    /// Destroys the slot of an active connection, freeing its identifier,
    /// and hands back its socket.
    pub fn remove(&mut self, id: usize) -> (r: S)
        requires
            old(self).wf(),
            old(self).is_active(id as int),
        ensures
            final(self).wf(),
            r == old(self).slot(id as int).socket,
            final(self)@ == old(self)@.update(id as int, None),
            final(self).active_count() + 1 == old(self).active_count(),
    {
        proof {
            lemma_count_update(self@, id as int, None);
        }
        let mut taken: Option<ClientSlot<S>> = None;
        std::mem::swap(&mut taken, &mut self.slots[id]);
        match taken {
            Some(slot) => slot.socket,
            None => {
                vstd::pervasive::unreached()
            },
        }
    }
}

} // verus!
