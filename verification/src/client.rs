//! The client side of the connection: packets framed by their big-endian length, and the
//! messages received from the server kept by kind until they are handed out.

use vstd::prelude::*;

use crate::items::{find_name, index_of_name};

verus! {

/// The four big-endian bytes of a `u32`.
pub open spec fn be_bytes(x: u32) -> Seq<u8> {
    seq![
        (x / 16777216) as u8,
        ((x / 65536) % 256) as u8,
        ((x / 256) % 256) as u8,
        (x % 256) as u8,
    ]
}

/// The number that four big-endian bytes stand for.
pub open spec fn be_value(s: Seq<u8>) -> int {
    16777216 * s[0] + 65536 * s[1] + 256 * s[2] + s[3]
}

/// A packet as it is sent: its length, big-endian, then its bytes.
pub fn packet_frame(payload: &[u8]) -> (r: Vec<u8>)
    requires
        payload.len() <= u32::MAX,
    ensures
        r@ == be_bytes(payload.len() as u32) + payload@,
{
    let size = payload.len() as u32;
    let mut r: Vec<u8> = Vec::new();
    r.push((size / 16777216) as u8);
    r.push(((size / 65536) % 256) as u8);
    r.push(((size / 256) % 256) as u8);
    r.push((size % 256) as u8);
    let mut i: usize = 0;
    while i < payload.len()
        invariant
            i <= payload.len(),
            r@ == be_bytes(size) + payload@.subrange(0, i as int),
        decreases payload.len() - i,
    {
        r.push(payload[i]);
        i += 1;
        assert(r@ =~= be_bytes(size) + payload@.subrange(0, i as int));
    }
    assert(payload@.subrange(0, payload.len() as int) =~= payload@);
    r
}

/// The length a packet header announces.
pub fn packet_length(header: [u8; 4]) -> (r: u32)
    ensures
        r == be_value(header@),
{
    16777216 * (header[0] as u32) + 65536 * (header[1] as u32) + 256 * (header[2] as u32)
        + header[3] as u32
}

/// Whether a packet of the announced length is read: it must not be longer than the longest
/// packet allowed; a longer one ends the connection.
pub fn accepts_packet(length: u32, max_packet_length: usize) -> (r: bool)
    ensures
        r == (length <= max_packet_length),
{
    (length as usize) <= max_packet_length
}

/// The messages received from the server, by the kind they were registered for, waiting to be
/// handed out.
#[derive(Debug)]
pub struct ClientMessages {
    kinds: Vec<String>,
    pending: Vec<(usize, Vec<u8>)>,
}

/// The data of the pending messages of the kind with the given index, in the order they came.
pub open spec fn pending_of(pending: Seq<(usize, Vec<u8>)>, kind: int) -> Seq<Seq<u8>> {
    pending.filter(of_kind(kind)).map_values(|p: (usize, Vec<u8>)| p.1@)
}

/// Whether a pending message is of the kind with the given index.
pub open spec fn of_kind(kind: int) -> spec_fn((usize, Vec<u8>)) -> bool {
    |p: (usize, Vec<u8>)| p.0 == kind
}

/// Whether a pending message is of another kind than the one with the given index.
pub open spec fn not_of_kind(kind: int) -> spec_fn((usize, Vec<u8>)) -> bool {
    |p: (usize, Vec<u8>)| p.0 != kind
}

/// A message delivered for a kind is the last of that kind to be taken out, behind those
/// already pending, and leaves what is pending for the other kinds as it was.
pub proof fn lemma_delivered_taken_last(
    pending: Seq<(usize, Vec<u8>)>,
    kind: usize,
    other: usize,
    data: Vec<u8>,
)
    ensures
        pending_of(pending.push((kind, data)), kind as int) == pending_of(pending, kind as int).push(data@),
        kind != other ==> pending_of(pending.push((kind, data)), other as int) == pending_of(pending, other as int),
{
    pending.lemma_filter_push((kind, data), of_kind(kind as int));
    pending.lemma_filter_push((kind, data), of_kind(other as int));
    assert(pending.filter(of_kind(kind as int)).push((kind, data)).map_values(|p: (usize, Vec<u8>)| p.1@)
        =~= pending_of(pending, kind as int).push(data@));
}

impl ClientMessages {
    /// The registered kinds; a kind's position is its index.
    pub closed spec fn kinds(&self) -> Seq<String> {
        self.kinds@
    }

    /// The pending messages, each with the index of its kind, in the order they came.
    pub closed spec fn pending(&self) -> Seq<(usize, Vec<u8>)> {
        self.pending@
    }

    /// Every pending message is of a registered kind.
    pub closed spec fn wf(&self) -> bool {
        forall|i: int| 0 <= i < self.pending@.len() ==> (#[trigger] self.pending@[i]).0 < self.kinds@.len()
    }

    /// No kind registered, nothing pending.
    pub fn new() -> (r: ClientMessages)
        ensures
            r.wf(),
            r.kinds() == Seq::<String>::empty(),
            r.pending() == Seq::<(usize, Vec<u8>)>::empty(),
    {
        ClientMessages { kinds: Vec::new(), pending: Vec::new() }
    }

    /// Whether a kind of message is registered.
    pub fn is_registered(&self, kind: &str) -> (r: bool)
        ensures
            r == (index_of_name(self.kinds(), kind@) is Some),
    {
        find_name(&self.kinds, kind).is_some()
    }

    /// Registers a kind of message to be kept. A kind is registered once.
    pub fn register(&mut self, kind: &str)
        requires
            old(self).wf(),
            index_of_name(old(self).kinds(), kind@) is None,
        ensures
            final(self).wf(),
            final(self).kinds().len() == old(self).kinds().len() + 1,
            final(self).kinds().drop_last() == old(self).kinds(),
            final(self).kinds().last()@ == kind@,
            final(self).pending() == old(self).pending(),
    {
        self.kinds.push(kind.to_owned());
    }

    /// Keeps a message of a kind; a message of a kind not registered is dropped, and `false`
    /// returned.
    pub fn deliver(&mut self, kind: &str, data: Vec<u8>) -> (r: bool)
        requires
            old(self).wf(),
        ensures
            final(self).wf(),
            final(self).kinds() == old(self).kinds(),
            r == (index_of_name(old(self).kinds(), kind@) is Some),
            final(self).pending() == match index_of_name(old(self).kinds(), kind@) {
                Some(i) => old(self).pending().push((i as usize, data)),
                None => old(self).pending(),
            },
    {
        match find_name(&self.kinds, kind) {
            Some(i) => {
                self.pending.push((i, data));
                true
            },
            None => false,
        }
    }

    /// Takes out the data of the messages of a kind, in the order they came; none for a kind
    /// not registered.
    pub fn take(&mut self, kind: &str) -> (r: Vec<Vec<u8>>)
        requires
            old(self).wf(),
        ensures
            final(self).wf(),
            final(self).kinds() == old(self).kinds(),
            match index_of_name(old(self).kinds(), kind@) {
                Some(i) => {
                    &&& r@.map_values(|d: Vec<u8>| d@) == pending_of(old(self).pending(), i)
                    &&& final(self).pending() == old(self).pending().filter(not_of_kind(i))
                },
                None => r@.len() == 0 && final(self).pending() == old(self).pending(),
            },
    {
        let index = match find_name(&self.kinds, kind) {
            Some(i) => i,
            None => {
                return Vec::new();
            },
        };
        let mut taken: Vec<Vec<u8>> = Vec::new();
        let mut kept: Vec<(usize, Vec<u8>)> = Vec::new();
        let mut pending = Vec::new();
        core::mem::swap(&mut pending, &mut self.pending);
        let ghost all = pending@;
        let mut n: usize = 0;
        let total = pending.len();
        while n < total
            invariant
                n <= total,
                total == all.len(),
                pending@ == all.subrange(n as int, total as int),
                self.kinds@ == old(self).kinds@,
                forall|i: int| 0 <= i < all.len() ==> (#[trigger] all[i]).0 < self.kinds@.len(),
                taken@.map_values(|d: Vec<u8>| d@) == pending_of(all.subrange(0, n as int), index as int),
                kept@ == all.subrange(0, n as int).filter(not_of_kind(index as int)),
            decreases total - n,
        {
            let ghost before = all.subrange(0, n as int);
            let item = pending.remove(0);
            assert(item == all[n as int]);
            assert(all.subrange(0, n + 1) =~= before.push(item));
            proof {
                before.lemma_filter_push(item, of_kind(index as int));
                before.lemma_filter_push(item, not_of_kind(index as int));
            }
            if item.0 == index {
                let ghost t = taken@;
                taken.push(item.1);
                assert(taken@.map_values(|d: Vec<u8>| d@) =~= t.map_values(|d: Vec<u8>| d@).push(item.1@));
                assert(before.filter(of_kind(index as int)).push(item).map_values(
                    |p: (usize, Vec<u8>)| p.1@,
                ) =~= pending_of(before, index as int).push(item.1@));
            } else {
                kept.push(item);
                assert(pending_of(all.subrange(0, n + 1), index as int) =~= pending_of(before, index as int));
            }
            n += 1;
            assert(pending@ =~= all.subrange(n as int, total as int));
        }
        assert(all.subrange(0, total as int) =~= all);
        proof {
            assert forall|i: int| 0 <= i < kept@.len() implies (#[trigger] kept@[i]).0 < self.kinds@.len() by {
                let f = not_of_kind(index as int);
                assert(all.filter(f).contains(kept@[i]));
                all.lemma_filter_contains_rev(f, kept@[i]);
            }
        }
        self.pending = kept;
        taken
    }
}


/// Why the connection to the server failed.
#[derive(Debug, Clone, Copy, PartialEq, Eq)]
pub enum ClientNetworkError {
    /// The server could not be reached.
    ConnectionRefused,
    /// A message could not be handed to the connection: the server is gone.
    ConnectionLost,
}

/// What happened to the connection to the server.
#[derive(Debug)]
pub enum ClientNetworkEvent {
    Connected,
    /// The connection was ended, with the message shown to the player.
    Disconnected(String),
    Error(ClientNetworkError),
}

/// Whether an event ends the connection.
pub open spec fn ends_connection(event: ClientNetworkEvent) -> bool {
    !(event is Connected)
}

/// The queued events, with the disconnect sent by the server, if any, behind them.
pub open spec fn with_disconnect(
    queued: Seq<ClientNetworkEvent>,
    server_disconnect: Option<String>,
) -> Seq<ClientNetworkEvent> {
    match server_disconnect {
        Some(m) => queued.push(ClientNetworkEvent::Disconnected(m)),
        None => queued,
    }
}

/// What one round of event handling did: the events reported, in order, whether the
/// connection was stopped, and the events left queued for the next round.
pub struct EventRound {
    pub reported: Vec<ClientNetworkEvent>,
    pub stop_connection: bool,
    pub remaining: Vec<ClientNetworkEvent>,
}

/// Handles the queued connection events of one round. A disconnect sent by the server is queued
/// behind them first. The events are then reported in order up to and including the first one
/// that ends the connection; that one stops the connection, and the events behind it wait for
/// the next round.
pub fn handle_network_events(
    server_disconnect: Option<String>,
    queued: Vec<ClientNetworkEvent>,
) -> (r: EventRound)
    ensures
        ({
            let all = with_disconnect(queued@, server_disconnect);
            &&& r.reported@.len() + r.remaining@.len() == all.len()
            &&& r.reported@ == all.subrange(0, r.reported@.len() as int)
            &&& r.remaining@ == all.subrange(r.reported@.len() as int, all.len() as int)
            &&& forall|j: int|
                0 <= j < r.reported@.len() - 1 ==> !ends_connection(#[trigger] all[j])
            &&& r.stop_connection == (exists|j: int|
                0 <= j < all.len() && ends_connection(#[trigger] all[j]))
            &&& r.stop_connection ==> ends_connection(r.reported@.last())
            &&& !r.stop_connection ==> r.remaining@.len() == 0
        }),
{
    let ghost expected = with_disconnect(queued@, server_disconnect);
    let mut events = queued;
    match server_disconnect {
        Some(m) => events.push(ClientNetworkEvent::Disconnected(m)),
        None => {},
    }
    let ghost all = events@;
    assert(all == expected);
    let mut reported: Vec<ClientNetworkEvent> = Vec::new();
    while events.len() > 0
        invariant
            all == expected,
            expected == with_disconnect(queued@, server_disconnect),
            reported@.len() + events@.len() == all.len(),
            reported@ == all.subrange(0, reported@.len() as int),
            events@ == all.subrange(reported@.len() as int, all.len() as int),
            forall|j: int| 0 <= j < reported@.len() ==> !ends_connection(#[trigger] all[j]),
        decreases events.len(),
    {
        let event = events.remove(0);
        let ends = match &event {
            ClientNetworkEvent::Connected => false,
            _ => true,
        };
        let ghost k = reported@.len() as int;
        assert(event == all[k]);
        reported.push(event);
        assert(reported@ =~= all.subrange(0, reported@.len() as int));
        assert(events@ =~= all.subrange(reported@.len() as int, all.len() as int));
        if ends {
            assert(ends_connection(all[k]));
            assert(reported@.last() == all[k]);
            return EventRound { reported, stop_connection: true, remaining: events };
        }
    }
    EventRound { reported, stop_connection: false, remaining: events }
}

} // verus!
