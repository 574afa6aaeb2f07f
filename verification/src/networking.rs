//! The framing of the messages exchanged with clients: the header of each message, the buffer a
//! connection reads into and writes from, and the compressed frames sent over the socket.

use std::collections::HashSet;

use vstd::prelude::*;
use vstd::std_specs::iter::IteratorSpec;

use crate::Entity;

verus! {

broadcast use vstd::std_specs::hash::group_hash_axioms;

/// Size of each connection's read/write buffer.
pub const MESSAGE_BUFFER_SIZE: usize = 1048576;

/// Size past which a connection's buffer is not grown any further.
pub const MESSAGE_BUFFER_MAX_SIZE: usize = 33554432;

/// The header of a message: its type (1 byte) and the length of its body (4 bytes).
pub const HEADER_SIZE: usize = 5;

/// The header of a compressed frame: the length of the compressed bytes (4 bytes).
pub const COMPRESSION_HEADER: usize = 4;

/// Room kept for a message whose end has not arrived yet.
pub const PARTIAL_MESSAGE_SIZE: usize = 1024;

/// The four little-endian bytes of a `u32`.
pub open spec fn le_bytes(x: u32) -> Seq<u8> {
    seq![
        (x % 256) as u8,
        ((x / 256) % 256) as u8,
        ((x / 65536) % 256) as u8,
        (x / 16777216) as u8,
    ]
}

/// The number that four little-endian bytes stand for.
pub open spec fn le_value(s: Seq<u8>) -> int {
    s[0] + 256 * s[1] + 65536 * s[2] + 16777216 * s[3]
}

/// Reading the bytes of a number gives the number back.
pub proof fn lemma_le_roundtrip(x: u32)
    ensures
        le_bytes(x).len() == 4,
        le_value(le_bytes(x)) == x,
{
    let s = le_bytes(x);
    assert(x == x % 256 + 256 * ((x / 256) % 256) + 65536 * ((x / 65536) % 256) + 16777216 * (x
        / 16777216)) by (nonlinear_arith);
    assert(s[0] == x % 256);
    assert(s[1] == (x / 256) % 256);
    assert(s[2] == (x / 65536) % 256);
    assert(s[3] == x / 16777216);
}

/// The little-endian bytes of a number.
pub fn u32_le_bytes(x: u32) -> (r: Vec<u8>)
    ensures
        r@ == le_bytes(x),
{
    let mut r: Vec<u8> = Vec::new();
    r.push((x % 256) as u8);
    r.push(((x / 256) % 256) as u8);
    r.push(((x / 65536) % 256) as u8);
    r.push((x / 16777216) as u8);
    assert(r@ =~= le_bytes(x));
    r
}

/// The number stored in little-endian order in the four bytes at `at`.
pub fn read_le_u32(bytes: &Vec<u8>, at: usize) -> (r: u32)
    requires
        at + 4 <= bytes.len(),
    ensures
        r == le_value(bytes@.subrange(at as int, at + 4)),
{
    let b0 = bytes[at] as u32;
    let b1 = bytes[at + 1] as u32;
    let b2 = bytes[at + 2] as u32;
    let b3 = bytes[at + 3] as u32;
    b0 + 256 * b1 + 65536 * b2 + 16777216 * b3
}

/// A message as it is written to a connection: its type, the length of its body and the body.
pub open spec fn framed(message_type: u8, body: Seq<u8>) -> Seq<u8> {
    seq![message_type] + le_bytes(body.len() as u32) + body
}

/// Bytes preceded by their length, as compressed frames are sent.
pub open spec fn length_prefixed(body: Seq<u8>) -> Seq<u8> {
    le_bytes(body.len() as u32) + body
}

/// Appends all of `bytes` to `out`.
fn append(out: &mut Vec<u8>, bytes: &[u8])
    ensures
        final(out)@ == old(out)@ + bytes@,
{
    let ghost start = out@;
    let mut i: usize = 0;
    while i < bytes.len()
        invariant
            i <= bytes.len(),
            out@ == start + bytes@.subrange(0, i as int),
        decreases bytes.len() - i,
    {
        out.push(bytes[i]);
        i += 1;
        assert(out@ =~= start + bytes@.subrange(0, i as int));
    }
    assert(bytes@.subrange(0, bytes.len() as int) =~= bytes@);
}

/// A message framed with its header: the type, the body's length, then the body.
pub fn frame_message(message_type: u8, body: &[u8]) -> (r: Vec<u8>)
    requires
        body.len() <= u32::MAX,
    ensures
        r@ == framed(message_type, body@),
{
    let mut r: Vec<u8> = Vec::new();
    r.push(message_type);
    let size = u32_le_bytes(body.len() as u32);
    append(&mut r, size.as_slice());
    append(&mut r, body);
    assert(r@ =~= framed(message_type, body@));
    r
}

/// Compressed bytes preceded by their length, as they are sent to a client; the length is
/// stored modulo 2^32.
pub fn prefix_length(body: &[u8]) -> (r: Vec<u8>)
    ensures
        r@ == length_prefixed(body@),
{
    let size = u32_le_bytes(body.len() as u32);
    let mut r: Vec<u8> = Vec::new();
    append(&mut r, size.as_slice());
    append(&mut r, body);
    assert(r@ =~= length_prefixed(body@));
    r
}

/// What `zstd::stream::encode_all` produces from the bytes at the compression level.
pub uninterp spec fn zstd_encoded_all(data: Seq<u8>, level: i32) -> Seq<u8>;


/// What a `zstd::stream::Encoder` at the level, told the exact size of the input beforehand,
/// produces from the bytes.
pub uninterp spec fn zstd_stream_encoded(data: Seq<u8>, level: i32) -> Seq<u8>;

/// `zstd::stream::encode_all`, which is `zstd::stream::copy_encode` into a new vector: the
/// compressed bytes are the named result of the input and the level. Compressing from memory
/// into memory at a level of zstd's range does not fail (running out of memory aside), so the
/// result is always there.
#[verifier::external_body]
pub(crate) fn zstd_encode_all(data: &[u8], level: i32) -> (r: Option<Vec<u8>>)
    requires
        1 <= level <= 22,
    ensures
        r is Some,
        r matches Some(v) ==> v@ == zstd_encoded_all(data@, level),
{
    zstd::stream::encode_all(data, level).ok()
}

/// `zstd::stream::Encoder::new` into a new vector, `set_pledged_src_size` with the input's
/// length, the whole input written with `std::io::copy`, and `finish`: the output is the named
/// result of the input and the level. None of these steps fails from memory into memory at a
/// level of zstd's range when the pledged size is the real one (running out of memory aside),
/// so the result is always there.
#[verifier::external_body]
fn zstd_stream_encode(data: &[u8], level: i32) -> (r: Option<Vec<u8>>)
    requires
        1 <= level <= 22,
    ensures
        r is Some,
        r matches Some(v) ==> v@ == zstd_stream_encoded(data@, level),
{
    let mut encoder = zstd::stream::Encoder::new(Vec::new(), level).ok()?;
    encoder.set_pledged_src_size(Some(data.len() as u64)).ok()?;
    std::io::copy(&mut &data[..], &mut encoder).ok()?;
    encoder.finish().ok()
}

/// The compression level used for everything sent to clients.
pub const COMPRESSION_LEVEL: i32 = 5;

/// A message framed, compressed whole and preceded by the compressed length: the form in which
/// the server's configuration is sent to a new client.
pub fn compressed_message(message_type: u8, body: &[u8]) -> (r: Vec<u8>)
    requires
        body.len() <= u32::MAX,
    ensures
        r@ == length_prefixed(zstd_encoded_all(framed(message_type, body@), COMPRESSION_LEVEL)),
{
    let message = frame_message(message_type, body);
    let compressed = zstd_encode_all(message.as_slice(), COMPRESSION_LEVEL).unwrap();
    prefix_length(compressed.as_slice())
}

/// What the first message of some unread bytes is, as far as its header tells.
#[derive(Clone, Copy, Debug, PartialEq, Eq, Structural)]
pub enum Frame {
    /// Not all of the message has arrived: the header is incomplete, or the body is short by
    /// more than a header's length.
    Incomplete,
    /// The type byte is not one of a known message type.
    InvalidType,
    /// The body is longer than a partially received message can be kept in.
    TooLong,
    /// The body fits, but it has not all arrived and is short by at most a header's length.
    Truncated,
    /// The whole message has arrived.
    Complete,
}

/// The longest body a message can have.
pub open spec fn max_body_length() -> int {
    PARTIAL_MESSAGE_SIZE - HEADER_SIZE
}

/// The body length in the header of the first message of the bytes.
pub open spec fn body_length(unread: Seq<u8>) -> int {
    le_value(unread.subrange(1, 5))
}

/// What the first message of the bytes is, message types being below `type_count`.
pub open spec fn frame_of(unread: Seq<u8>, type_count: u8) -> Frame {
    if unread.len() < HEADER_SIZE {
        Frame::Incomplete
    } else if unread[0] >= type_count {
        Frame::InvalidType
    } else if body_length(unread) > max_body_length() {
        Frame::TooLong
    } else if unread.len() + HEADER_SIZE < body_length(unread) {
        Frame::Incomplete
    } else if unread.len() < HEADER_SIZE + body_length(unread) {
        Frame::Truncated
    } else {
        Frame::Complete
    }
}

/// The bytes after the first message, when it is complete.
pub open spec fn after_first(unread: Seq<u8>) -> Seq<u8> {
    unread.subrange(HEADER_SIZE + body_length(unread), unread.len() as int)
}

/// The messages read from the bytes, one after the other, until one has not all arrived or
/// one is invalid: an invalid type is read as the type `type_count` with an empty body, a too
/// long body as an empty one, and reading stops after either.
pub open spec fn messages_in(unread: Seq<u8>, type_count: u8) -> Seq<(u8, Seq<u8>)>
    decreases unread.len(),
{
    match frame_of(unread, type_count) {
        Frame::InvalidType => seq![(type_count, Seq::<u8>::empty())],
        Frame::TooLong => seq![(unread[0], Seq::<u8>::empty())],
        Frame::Complete => {
            if HEADER_SIZE + body_length(unread) <= unread.len() {
                seq![(unread[0], unread.subrange(HEADER_SIZE as int, HEADER_SIZE + body_length(unread)))]
                    + messages_in(after_first(unread), type_count)
            } else {
                Seq::empty()
            }
        },
        _ => Seq::empty(),
    }
}

/// The bytes left where reading the messages stops.
pub open spec fn unread_rest(unread: Seq<u8>, type_count: u8) -> Seq<u8>
    decreases unread.len(),
{
    if frame_of(unread, type_count) == Frame::Complete && HEADER_SIZE + body_length(unread)
        <= unread.len() {
        unread_rest(after_first(unread), type_count)
    } else {
        unread
    }
}

/// Whether reading the messages stops at an invalid one rather than at one that has not all
/// arrived.
pub open spec fn stops_invalid(unread: Seq<u8>, type_count: u8) -> bool
    decreases unread.len(),
{
    match frame_of(unread, type_count) {
        Frame::InvalidType | Frame::TooLong => true,
        Frame::Complete => HEADER_SIZE + body_length(unread) <= unread.len() && stops_invalid(
            after_first(unread),
            type_count,
        ),
        _ => false,
    }
}

/// Whether no message read from the bytes is truncated (see [Frame::Truncated]).
pub open spec fn well_framed(unread: Seq<u8>, type_count: u8) -> bool
    decreases unread.len(),
{
    match frame_of(unread, type_count) {
        Frame::Truncated => false,
        Frame::Complete => HEADER_SIZE + body_length(unread) <= unread.len() ==> well_framed(
            after_first(unread),
            type_count,
        ),
        _ => true,
    }
}

/// The bytes of `bytes` from `start` up to `end`.
fn copy_range(bytes: &Vec<u8>, start: usize, end: usize) -> (r: Vec<u8>)
    requires
        start <= end <= bytes.len(),
    ensures
        r@ == bytes@.subrange(start as int, end as int),
{
    let mut r: Vec<u8> = Vec::new();
    let mut i: usize = start;
    while i < end
        invariant
            start <= i <= end <= bytes.len(),
            r@ == bytes@.subrange(start as int, i as int),
        decreases end - i,
    {
        r.push(bytes[i]);
        i += 1;
        assert(r@ =~= bytes@.subrange(start as int, i as int));
    }
    r
}

/// The size a buffer of the given capacity is grown to for a message with a body of `size`
/// bytes: twice its capacity, or the size of the message with its header if that is more.
pub open spec fn grown_capacity(capacity: nat, size: nat) -> nat {
    if 2 * capacity > size + (HEADER_SIZE as nat) {
        2 * capacity
    } else {
        size + (HEADER_SIZE as nat)
    }
}

/// The messages as types and byte strings.
pub open spec fn message_views(messages: Seq<(u8, Vec<u8>)>) -> Seq<(u8, Seq<u8>)> {
    messages.map_values(|m: (u8, Vec<u8>)| (m.0, m.1@))
}

/// A message written in the form a connection writes it is read back whole, with its type and
/// body, as long as its type is a known one and its body fits; what follows it is read after it.
pub proof fn lemma_read_written(message_type: u8, body: Seq<u8>, rest: Seq<u8>, type_count: u8)
    requires
        message_type < type_count,
        body.len() <= max_body_length(),
    ensures
        frame_of(framed(message_type, body) + rest, type_count) == Frame::Complete,
        messages_in(framed(message_type, body) + rest, type_count) == seq![(message_type, body)]
            + messages_in(rest, type_count),
        unread_rest(framed(message_type, body) + rest, type_count) == unread_rest(rest, type_count),
        stops_invalid(framed(message_type, body) + rest, type_count) == stops_invalid(
            rest,
            type_count,
        ),
        well_framed(framed(message_type, body) + rest, type_count) == well_framed(rest, type_count),
{
    let s = framed(message_type, body) + rest;
    lemma_le_roundtrip(body.len() as u32);
    assert(s.subrange(1, 5) =~= le_bytes(body.len() as u32));
    assert(body_length(s) == body.len());
    assert(s.subrange(HEADER_SIZE as int, HEADER_SIZE + body.len()) =~= body);
    assert(after_first(s) =~= rest);
}

/// Messages that arrive in two reads are read as if they had arrived in one: the messages of
/// the first read, then those of what was kept aside followed by the second read, are the
/// messages of both reads together. (The first read must not stop at an invalid message, and
/// must hold no truncated one.)
pub proof fn lemma_reads_join(first: Seq<u8>, second: Seq<u8>, type_count: u8)
    requires
        well_framed(first, type_count),
        !stops_invalid(first, type_count),
    ensures
        messages_in(first, type_count) + messages_in(
            unread_rest(first, type_count) + second,
            type_count,
        ) == messages_in(first + second, type_count),
        unread_rest(unread_rest(first, type_count) + second, type_count) == unread_rest(
            first + second,
            type_count,
        ),
    decreases first.len(),
{
    let s = first + second;
    if frame_of(first, type_count) == Frame::Complete && HEADER_SIZE + body_length(first)
        <= first.len() {
        assert(s.subrange(1, 5) =~= first.subrange(1, 5));
        assert(s[0] == first[0]);
        assert(frame_of(s, type_count) == Frame::Complete);
        assert(after_first(s) =~= after_first(first) + second);
        assert(s.subrange(HEADER_SIZE as int, HEADER_SIZE + body_length(s)) =~= first.subrange(
            HEADER_SIZE as int,
            HEADER_SIZE + body_length(first),
        ));
        lemma_reads_join(after_first(first), second, type_count);
        assert(messages_in(first, type_count) + messages_in(
            unread_rest(first, type_count) + second,
            type_count,
        ) =~= messages_in(s, type_count));
    } else {
        assert(messages_in(first, type_count) =~= Seq::<(u8, Seq<u8>)>::empty());
        assert(unread_rest(first, type_count) == first);
        assert(messages_in(first, type_count) + messages_in(first + second, type_count)
            =~= messages_in(first + second, type_count));
    }
}

/// The read and write buffer of a connection to a client. Bytes received from the socket are
/// read into it and taken out message by message; a message whose end has not arrived is kept
/// aside until more bytes come. Messages to send are written into the same buffer, which is
/// grown when they do not fit, up to a limit.
pub struct Connection {
    buffer: Vec<u8>,
    read_cursor: usize,
    read_bytes: usize,
    write_cursor: usize,
    partial: Vec<u8>,
}

impl Connection {
    /// The cursors lie within the buffer, and the message kept aside fits its room.
    pub closed spec fn wf(&self) -> bool {
        &&& self.read_cursor <= self.read_bytes <= self.buffer.len()
        &&& self.write_cursor <= self.buffer.len()
        &&& self.partial.len() <= PARTIAL_MESSAGE_SIZE
        &&& MESSAGE_BUFFER_SIZE <= self.buffer.len()
    }

    /// The received bytes not taken out yet.
    pub closed spec fn unread(&self) -> Seq<u8> {
        self.buffer@.subrange(self.read_cursor as int, self.read_bytes as int)
    }

    /// Where the received bytes end in the buffer.
    pub closed spec fn read_end(&self) -> nat {
        self.read_bytes as nat
    }

    /// The bytes of a message whose end had not arrived, kept for the next read.
    pub closed spec fn partial_message(&self) -> Seq<u8> {
        self.partial@
    }

    /// The messages written and not sent yet.
    pub closed spec fn written(&self) -> Seq<u8> {
        self.buffer@.subrange(0, self.write_cursor as int)
    }

    /// The size of the buffer.
    pub closed spec fn capacity(&self) -> nat {
        self.buffer.len() as nat
    }

    /// A connection with an empty buffer of the default size.
    pub fn new() -> (r: Connection)
        ensures
            r.wf(),
            r.unread() == Seq::<u8>::empty(),
            r.partial_message() == Seq::<u8>::empty(),
            r.written() == Seq::<u8>::empty(),
            r.capacity() == MESSAGE_BUFFER_SIZE,
    {
        let r = Connection {
            buffer: vec![0u8; MESSAGE_BUFFER_SIZE],
            read_cursor: 0,
            read_bytes: 0,
            write_cursor: 0,
            partial: Vec::new(),
        };
        assert(r.unread() =~= Seq::<u8>::empty());
        assert(r.written() =~= Seq::<u8>::empty());
        r
    }

    /// How many bytes the next read from the socket may bring.
    pub fn read_capacity(&self) -> (r: usize)
        requires
            self.wf(),
        ensures
            r == self.capacity() - self.partial_message().len(),
    {
        self.buffer.len() - self.partial.len()
    }

    /// Brings the buffer back to its default size: growth for a surge of messages is not kept.
    /// Unread or written bytes past the new end (never there when the buffer was grown, as it
    /// only grows while writing, after everything was read, and shrinks after everything
    /// written was sent) are dropped.
    pub fn shrink(&mut self)
        requires
            old(self).wf(),
        ensures
            final(self).wf(),
            final(self).capacity() == MESSAGE_BUFFER_SIZE,
            final(self).partial_message() == old(self).partial_message(),
            old(self).read_end() <= MESSAGE_BUFFER_SIZE ==> final(self).unread() == old(
                self,
            ).unread(),
            old(self).written().len() <= MESSAGE_BUFFER_SIZE ==> final(self).written() == old(
                self,
            ).written(),
    {
        let ghost before = self.buffer@;
        self.buffer.truncate(MESSAGE_BUFFER_SIZE);
        if self.read_bytes > MESSAGE_BUFFER_SIZE {
            self.read_bytes = MESSAGE_BUFFER_SIZE;
        }
        if self.read_cursor > self.read_bytes {
            self.read_cursor = self.read_bytes;
        }
        if self.write_cursor > MESSAGE_BUFFER_SIZE {
            self.write_cursor = MESSAGE_BUFFER_SIZE;
        }
        assert(self.buffer@ =~= before.subrange(0, MESSAGE_BUFFER_SIZE as int));
        assert(old(self).read_bytes <= MESSAGE_BUFFER_SIZE ==> self.unread() =~= old(self).unread());
        assert(old(self).write_cursor <= MESSAGE_BUFFER_SIZE ==> self.written() =~= old(
            self,
        ).written());
    }

    /// Moves the message kept aside to the front of the buffer and appends what was received
    /// from the socket after it: these are now the unread bytes.
    pub fn read_from_socket(&mut self, received: &[u8])
        requires
            old(self).wf(),
            received.len() <= old(self).capacity() - old(self).partial_message().len(),
        ensures
            final(self).wf(),
            final(self).unread() == old(self).partial_message() + received@,
            final(self).partial_message() == old(self).partial_message(),
            final(self).capacity() == old(self).capacity(),
    {
        let length = self.partial.len();
        let mut i: usize = 0;
        while i < length
            invariant
                length == self.partial.len(),
                length <= PARTIAL_MESSAGE_SIZE <= MESSAGE_BUFFER_SIZE <= self.buffer.len(),
                self.buffer.len() == old(self).buffer.len(),
                self.write_cursor == old(self).write_cursor,
                self.partial@ == old(self).partial@,
                i <= length,
                forall|k: int| 0 <= k < i ==> self.buffer@[k] == self.partial@[k],
            decreases length - i,
        {
            let b = self.partial[i];
            self.buffer.set(i, b);
            i += 1;
        }
        let mut j: usize = 0;
        while j < received.len()
            invariant
                length == self.partial.len(),
                self.buffer.len() == old(self).buffer.len(),
                length + received.len() <= self.buffer.len(),
                self.write_cursor == old(self).write_cursor,
                self.partial@ == old(self).partial@,
                j <= received.len(),
                forall|k: int| 0 <= k < length ==> self.buffer@[k] == self.partial@[k],
                forall|k: int| 0 <= k < j ==> self.buffer@[length + k] == received@[k],
            decreases received.len() - j,
        {
            self.buffer.set(length + j, received[j]);
            j += 1;
        }
        self.read_cursor = 0;
        self.read_bytes = length + received.len();
        assert(self.unread() =~= old(self).partial_message() + received@);
    }

    /// Takes the first message out of the unread bytes: its type and body. When it has not all
    /// arrived, the unread bytes are kept aside for the next read and there is none. A message
    /// of an invalid type is given as the type `type_count` with an empty body, one whose body
    /// is too long with an empty body; both are left unread. A truncated message (one the
    /// reader cannot tell from a complete one) must not be there.
    pub fn next_message(&mut self, type_count: u8) -> (r: Option<(u8, Vec<u8>)>)
        requires
            old(self).wf(),
            frame_of(old(self).unread(), type_count) != Frame::Truncated,
        ensures
            final(self).wf(),
            final(self).capacity() == old(self).capacity(),
            final(self).written() == old(self).written(),
            final(self).read_end() == old(self).read_end(),
            match frame_of(old(self).unread(), type_count) {
                Frame::Incomplete => {
                    &&& r is None
                    &&& final(self).unread() == old(self).unread()
                    &&& final(self).partial_message() == old(self).unread()
                },
                Frame::InvalidType => {
                    &&& r matches Some((t, body)) && t == type_count && body@ == Seq::<u8>::empty()
                    &&& final(self).unread() == old(self).unread()
                    &&& final(self).partial_message() == old(self).partial_message()
                },
                Frame::TooLong => {
                    &&& r matches Some((t, body)) && t == old(self).unread()[0] && body@
                        == Seq::<u8>::empty()
                    &&& final(self).unread() == old(self).unread()
                    &&& final(self).partial_message() == old(self).partial_message()
                },
                Frame::Complete => {
                    &&& r matches Some((t, body)) && t == old(self).unread()[0] && body@
                        == old(self).unread().subrange(
                        HEADER_SIZE as int,
                        HEADER_SIZE + body_length(old(self).unread()),
                    )
                    &&& HEADER_SIZE + body_length(old(self).unread()) <= old(self).unread().len()
                    &&& final(self).unread() == after_first(old(self).unread())
                    &&& final(self).partial_message() == old(self).partial_message()
                },
                Frame::Truncated => false,
            },
    {
        let ghost unread = self.unread();
        let available = self.read_bytes - self.read_cursor;
        if available < HEADER_SIZE {
            self.save_partial_message();
            return None;
        }
        let message_type = self.buffer[self.read_cursor];
        assert(message_type == unread[0]);
        if message_type >= type_count {
            return Some((type_count, Vec::new()));
        }
        let length = read_le_u32(&self.buffer, self.read_cursor + 1) as usize;
        assert(unread.subrange(1, 5) =~= self.buffer@.subrange(
            self.read_cursor + 1,
            self.read_cursor + 5,
        ));
        assert(length == body_length(unread));
        if length > PARTIAL_MESSAGE_SIZE - HEADER_SIZE {
            return Some((message_type, Vec::new()));
        } else if length > HEADER_SIZE && available < length - HEADER_SIZE {
            self.save_partial_message();
            return None;
        }
        let start = self.read_cursor + HEADER_SIZE;
        let body = copy_range(&self.buffer, start, start + length);
        assert(body@ =~= unread.subrange(HEADER_SIZE as int, HEADER_SIZE + length));
        self.read_cursor = start + length;
        assert(self.unread() =~= after_first(unread));
        Some((message_type, body))
    }

    /// Reads what was received from the socket after the message kept aside, and takes out
    /// every message of it (see [messages_in]). When reading stops at a message that has not
    /// all arrived, the rest is kept aside for the next read; when it stops at an invalid
    /// message, that message is the last one given and the message kept aside stays as it was.
    pub fn read_messages(&mut self, received: &[u8], type_count: u8) -> (r: Vec<(u8, Vec<u8>)>)
        requires
            old(self).wf(),
            received.len() <= old(self).capacity() - old(self).partial_message().len(),
            well_framed(old(self).partial_message() + received@, type_count),
        ensures
            final(self).wf(),
            final(self).capacity() == old(self).capacity(),
            message_views(r@) == messages_in(old(self).partial_message() + received@, type_count),
            final(self).unread() == unread_rest(
                old(self).partial_message() + received@,
                type_count,
            ),
            final(self).partial_message() == if stops_invalid(
                old(self).partial_message() + received@,
                type_count,
            ) {
                old(self).partial_message()
            } else {
                unread_rest(old(self).partial_message() + received@, type_count)
            },
    {
        self.read_from_socket(received);
        let ghost stream = self.unread();
        let mut messages: Vec<(u8, Vec<u8>)> = Vec::new();
        loop
            invariant_except_break
                self.wf(),
                self.capacity() == old(self).capacity(),
                well_framed(self.unread(), type_count),
                message_views(messages@) + messages_in(self.unread(), type_count) == messages_in(
                    stream,
                    type_count,
                ),
                unread_rest(self.unread(), type_count) == unread_rest(stream, type_count),
                stops_invalid(self.unread(), type_count) == stops_invalid(stream, type_count),
                self.partial_message() == old(self).partial_message(),
            ensures
                self.wf(),
                self.capacity() == old(self).capacity(),
                message_views(messages@) == messages_in(stream, type_count),
                self.unread() == unread_rest(stream, type_count),
                self.partial_message() == if stops_invalid(stream, type_count) {
                    old(self).partial_message()
                } else {
                    unread_rest(stream, type_count)
                },
            decreases self.unread().len(),
        {
            let ghost before = self.unread();
            let ghost before_messages = messages@;
            let cursor = self.read_cursor;
            match self.next_message(type_count) {
                None => {
                    assert(messages_in(before, type_count) =~= Seq::<(u8, Seq<u8>)>::empty());
                    assert(message_views(messages@) =~= message_views(messages@) + Seq::<(u8, Seq<u8>)>::empty());
                    break;
                },
                Some(message) => {
                    assert(self.unread().len() == self.read_bytes - self.read_cursor);
                    assert(before.len() == self.read_bytes - cursor);
                    let consumed = self.read_cursor != cursor;
                    messages.push(message);
                    assert(message_views(messages@) =~= message_views(before_messages).push(
                        (messages@.last().0, messages@.last().1@),
                    ));
                    if !consumed {
                        assert(frame_of(before, type_count) != Frame::Complete);
                        assert(message_views(messages@) =~= message_views(before_messages)
                            + messages_in(before, type_count));
                        break;
                    }
                    assert(frame_of(before, type_count) == Frame::Complete);
                    assert(message_views(messages@) + messages_in(self.unread(), type_count)
                        =~= message_views(before_messages) + messages_in(before, type_count));
                },
            }
        }
        messages
    }

    /// Whether a message with a body of `size` bytes can be written: it fits, or the buffer is
    /// already at its limit (and the write is refused), or growing the buffer to twice its
    /// size, or to the size of the message with its header if that is more, makes room for it.
    /// (A buffer grown that way may still be too small when unsent messages fill most of it
    /// and the message is larger than the whole buffer; such a write is not made.)
    pub open spec fn write_fits(&self, size: nat) -> bool {
        let end = self.written().len() + HEADER_SIZE + size;
        ||| end <= self.capacity()
        ||| self.capacity() >= MESSAGE_BUFFER_MAX_SIZE
        ||| end <= grown_capacity(self.capacity(), size)
    }

    /// Writes a message after the ones not sent yet: its type, the length of its body, and
    /// the body. When it does not fit, the buffer is grown (see [grown_capacity]), unless it
    /// has reached its limit: then nothing is written and the write fails.
    pub fn write_message(&mut self, message_type: u8, body: &[u8]) -> (r: Result<(), ()>)
        requires
            old(self).wf(),
            body.len() <= u32::MAX,
            old(self).capacity() + HEADER_SIZE + body.len() <= usize::MAX,
            old(self).write_fits(body.len() as nat),
        ensures
            final(self).wf(),
            final(self).partial_message() == old(self).partial_message(),
            final(self).read_end() == old(self).read_end(),
            ({
                let end = old(self).written().len() + HEADER_SIZE + body.len();
                if end > old(self).capacity() && old(self).capacity() >= MESSAGE_BUFFER_MAX_SIZE {
                    &&& r is Err
                    &&& final(self).written() == old(self).written()
                    &&& final(self).capacity() == old(self).capacity()
                    &&& final(self).unread() == old(self).unread()
                } else {
                    &&& r is Ok
                    &&& final(self).written() == old(self).written() + framed(
                        message_type,
                        body@,
                    )
                    &&& final(self).capacity() == if end > old(self).capacity() {
                        grown_capacity(old(self).capacity(), body.len() as nat)
                    } else {
                        old(self).capacity()
                    }
                }
            }),
    {
        let size = body.len();
        let cursor = self.write_cursor;
        let end = cursor + HEADER_SIZE + size;
        let ghost before = self.buffer@;
        if end > self.buffer.len() {
            if self.buffer.len() >= MESSAGE_BUFFER_MAX_SIZE {
                return Err(());
            }
            let doubled = self.buffer.len() * 2;
            let new_len = if doubled > size + HEADER_SIZE {
                doubled
            } else {
                size + HEADER_SIZE
            };
            self.buffer.resize(new_len, 0u8);
        }
        assert(self.buffer@.subrange(0, cursor as int) =~= before.subrange(0, cursor as int));
        let size_bytes = u32_le_bytes(size as u32);
        let ghost capacity = self.buffer.len();
        self.buffer.set(cursor, message_type);
        let mut i: usize = 0;
        while i < 4
            invariant
                cursor + HEADER_SIZE + size <= self.buffer.len(),
                self.write_cursor == cursor,
                self.buffer.len() == capacity,
                self.read_bytes == old(self).read_bytes,
                self.read_cursor <= self.read_bytes <= self.buffer.len(),
                self.partial@ == old(self).partial@,
                self.buffer.len() >= MESSAGE_BUFFER_SIZE,
                size_bytes@ == le_bytes(size as u32),
                i <= 4,
                self.buffer@.subrange(0, cursor as int) == before.subrange(0, cursor as int),
                self.buffer@[cursor as int] == message_type,
                forall|k: int| 0 <= k < i ==> self.buffer@[cursor + 1 + k] == size_bytes@[k],
            decreases 4 - i,
        {
            self.buffer.set(cursor + 1 + i, size_bytes[i]);
            i += 1;
            assert(self.buffer@.subrange(0, cursor as int) =~= before.subrange(0, cursor as int));
        }
        let mut j: usize = 0;
        while j < size
            invariant
                cursor + HEADER_SIZE + size <= self.buffer.len(),
                size == body.len(),
                self.write_cursor == cursor,
                self.buffer.len() == capacity,
                self.read_bytes == old(self).read_bytes,
                self.read_cursor <= self.read_bytes <= self.buffer.len(),
                self.partial@ == old(self).partial@,
                self.buffer.len() >= MESSAGE_BUFFER_SIZE,
                size_bytes@ == le_bytes(size as u32),
                j <= size,
                self.buffer@.subrange(0, cursor as int) == before.subrange(0, cursor as int),
                self.buffer@[cursor as int] == message_type,
                forall|k: int| 0 <= k < 4 ==> self.buffer@[cursor + 1 + k] == size_bytes@[k],
                forall|k: int| 0 <= k < j ==> self.buffer@[cursor + HEADER_SIZE + k] == body@[k],
            decreases size - j,
        {
            self.buffer.set(cursor + HEADER_SIZE + j, body[j]);
            j += 1;
            assert(self.buffer@.subrange(0, cursor as int) =~= before.subrange(0, cursor as int));
        }
        self.write_cursor = end;
        assert(self.written() =~= old(self).written() + framed(message_type, body@));
        Ok(())
    }

    /// Takes out the messages written and not sent yet, in the order they were written.
    pub fn take_written(&mut self) -> (r: Vec<u8>)
        requires
            old(self).wf(),
        ensures
            final(self).wf(),
            r@ == old(self).written(),
            final(self).written() == Seq::<u8>::empty(),
            final(self).unread() == old(self).unread(),
            final(self).read_end() == old(self).read_end(),
            final(self).partial_message() == old(self).partial_message(),
            final(self).capacity() == old(self).capacity(),
    {
        let r = copy_range(&self.buffer, 0, self.write_cursor);
        self.write_cursor = 0;
        assert(self.written() =~= Seq::<u8>::empty());
        r
    }

    /// The frame to send over the socket for the messages written since the last one: the
    /// messages compressed as a stream and preceded by the compressed length. There is none
    /// when nothing was written. Either way the written messages are taken out.
    pub fn outgoing_frame(&mut self) -> (r: Option<Vec<u8>>)
        requires
            old(self).wf(),
        ensures
            final(self).wf(),
            final(self).written() == Seq::<u8>::empty(),
            final(self).unread() == old(self).unread(),
            final(self).partial_message() == old(self).partial_message(),
            final(self).capacity() == old(self).capacity(),
            r is None <==> old(self).written().len() == 0,
            r matches Some(frame) ==> frame@ == length_prefixed(
                zstd_stream_encoded(old(self).written(), COMPRESSION_LEVEL),
            ),
    {
        let written = self.take_written();
        if written.len() == 0 {
            return None;
        }
        let compressed = zstd_stream_encode(written.as_slice(), COMPRESSION_LEVEL).unwrap();
        Some(prefix_length(compressed.as_slice()))
    }

    /// How many received bytes are not taken out yet.
    pub fn unread_len(&self) -> (r: usize)
        requires
            self.wf(),
        ensures
            r == self.unread().len(),
    {
        self.read_bytes - self.read_cursor
    }

    /// Whether the first unread message is truncated (see [Frame::Truncated]).
    pub fn first_is_truncated(&self, type_count: u8) -> (r: bool)
        requires
            self.wf(),
        ensures
            r == (frame_of(self.unread(), type_count) == Frame::Truncated),
    {
        let available = self.read_bytes - self.read_cursor;
        if available < HEADER_SIZE || self.buffer[self.read_cursor] >= type_count {
            return false;
        }
        let length = read_le_u32(&self.buffer, self.read_cursor + 1) as usize;
        assert(self.unread().subrange(1, 5) =~= self.buffer@.subrange(
            self.read_cursor + 1,
            self.read_cursor + 5,
        ));
        length <= PARTIAL_MESSAGE_SIZE - HEADER_SIZE && (length <= HEADER_SIZE || available
            >= length - HEADER_SIZE) && available < HEADER_SIZE + length
    }

    /// Whether the message kept aside followed by the received bytes holds no truncated
    /// message (see [well_framed]).
    pub fn received_well_framed(&self, received: &[u8], type_count: u8) -> (r: bool)
        requires
            self.wf(),
        ensures
            r == well_framed(self.partial_message() + received@, type_count),
    {
        let mut stream: Vec<u8> = Vec::new();
        append(&mut stream, self.partial.as_slice());
        append(&mut stream, received);
        let ghost all = stream@;
        let mut start: usize = 0;
        assert(all.subrange(0, all.len() as int) =~= all);
        loop
            invariant
                stream@ == all,
                all == self.partial@ + received@,
                start <= stream.len(),
                well_framed(all, type_count) == well_framed(all.subrange(start as int, all.len() as int), type_count),
            decreases stream.len() - start,
        {
            let ghost rest = all.subrange(start as int, all.len() as int);
            let available = stream.len() - start;
            assert(rest.len() == available);
            if available < HEADER_SIZE {
                return true;
            }
            assert(rest[0] == stream@[start as int]);
            if stream[start] >= type_count {
                return true;
            }
            let length = read_le_u32(&stream, start + 1) as usize;
            assert(rest.subrange(1, 5) =~= all.subrange(start + 1, start + 5));
            if length > PARTIAL_MESSAGE_SIZE - HEADER_SIZE {
                return true;
            }
            if length > HEADER_SIZE && available < length - HEADER_SIZE {
                return true;
            }
            if available < HEADER_SIZE + length {
                return false;
            }
            assert(after_first(rest) =~= all.subrange(start + HEADER_SIZE + length, all.len() as int));
            start = start + HEADER_SIZE + length;
        }
    }

    /// Whether a message with a body of `size` bytes can be written (see [Self::write_fits]),
    /// its end fitting in a `usize` too.
    pub fn can_write(&self, size: usize) -> (r: bool)
        requires
            self.wf(),
        ensures
            r == (self.write_fits(size as nat) && self.capacity() + HEADER_SIZE + size
                <= usize::MAX),
    {
        let capacity = self.buffer.len();
        if size > usize::MAX - HEADER_SIZE || capacity > usize::MAX - HEADER_SIZE - size {
            return false;
        }
        let end = self.write_cursor + HEADER_SIZE + size;
        if end <= capacity || capacity >= MESSAGE_BUFFER_MAX_SIZE {
            return true;
        }
        let doubled = capacity * 2;
        end <= doubled || end <= size + HEADER_SIZE
    }

    /// Keeps the unread bytes aside until the next read; there must be room for them.
    pub fn save_partial_message(&mut self)
        requires
            old(self).wf(),
            old(self).unread().len() <= PARTIAL_MESSAGE_SIZE,
        ensures
            final(self).wf(),
            final(self).partial_message() == old(self).unread(),
            final(self).unread() == old(self).unread(),
            final(self).read_end() == old(self).read_end(),
            final(self).written() == old(self).written(),
            final(self).capacity() == old(self).capacity(),
    {
        let mut kept: Vec<u8> = Vec::new();
        let mut i: usize = self.read_cursor;
        while i < self.read_bytes
            invariant
                self.read_cursor <= i <= self.read_bytes <= self.buffer.len(),
                kept@ == self.buffer@.subrange(self.read_cursor as int, i as int),
            decreases self.read_bytes - i,
        {
            kept.push(self.buffer[i]);
            i += 1;
            assert(kept@ =~= self.buffer@.subrange(self.read_cursor as int, i as int));
        }
        self.partial = kept;
    }
}


/// An event about the connection of a player.
#[derive(Clone, Copy, Debug, PartialEq, Eq, Structural)]
pub enum NetworkEvent {
    /// The player's connection was established.
    Connected { entity: Entity },
    /// The player's connection was dropped; the entity is removed a tick later.
    Disconnected { entity: Entity },
}

/// A message received from a player.
#[derive(Debug)]
pub struct NetworkMessage<T> {
    /// The entity of the player the message came from.
    pub player_entity: Entity,
    /// The message.
    pub message: T,
}

/// The connections to drop at the end of the tick.
#[derive(Debug)]
pub struct Disconnections {
    entities: HashSet<Entity>,
}

impl Disconnections {
    /// The entities whose connections are to be dropped.
    pub closed spec fn pending(&self) -> Set<Entity> {
        self.entities@
    }

    /// No connection to drop.
    pub fn new() -> (r: Disconnections)
        ensures
            r.pending() == Set::<Entity>::empty(),
    {
        Disconnections { entities: HashSet::new() }
    }

    /// Marks a connection to be dropped; whether it was not marked already.
    pub fn insert(&mut self, connection_entity: Entity) -> (r: bool)
        ensures
            final(self).pending() == old(self).pending().insert(connection_entity),
            r == !old(self).pending().contains(connection_entity),
    {
        self.entities.insert(connection_entity)
    }

    /// Takes out every connection marked to be dropped, each once, in no particular order.
    pub fn drain(&mut self) -> (r: Vec<Entity>)
        ensures
            r@.to_set() == old(self).pending(),
            r@.no_duplicates(),
            final(self).pending() == Set::<Entity>::empty(),
    {
        let ghost all = vstd::std_specs::hash::spec_hash_keys_iter(&self.entities).remaining();
        let mut entities: Vec<Entity> = Vec::new();
        for entity in it: self.entities.iter()
            invariant
                it.seq() == all,
                entities@ == all.take(it.index() as int).unref(),
        {
            entities.push(*entity);
        }
        assert(entities@ =~= all.unref());
        self.entities.clear();
        entities
    }
}

/// The events for the connections dropped at the end of a tick: one `Disconnected` for each
/// drained entity that still had a connection, which is removed from the connected ones.
pub fn disconnect_players(disconnections: &mut Disconnections, connected: &mut HashSet<Entity>)
    -> (r: Vec<NetworkEvent>)
    ensures
        final(disconnections).pending() == Set::<Entity>::empty(),
        final(connected)@ == old(connected)@.difference(old(disconnections).pending()),
        r@.no_duplicates(),
        forall|e: NetworkEvent| #[trigger] r@.contains(e) <==> (e matches NetworkEvent::Disconnected {
            entity,
        } && old(disconnections).pending().contains(entity) && old(connected)@.contains(entity)),
{
    let drained = disconnections.drain();
    let mut events: Vec<NetworkEvent> = Vec::new();
    let mut i: usize = 0;
    while i < drained.len()
        invariant
            i <= drained.len(),
            drained@.no_duplicates(),
            connected@ == old(connected)@.difference(drained@.take(i as int).to_set()),
            events@.no_duplicates(),
            forall|e: NetworkEvent| #[trigger] events@.contains(e) <==> (e matches NetworkEvent::Disconnected {
                entity,
            } && drained@.take(i as int).contains(entity) && old(connected)@.contains(entity)),
        decreases drained.len() - i,
    {
        let entity = drained[i];
        let ghost taken = drained@.take(i as int);
        assert(drained@.take(i + 1) =~= taken.push(entity));
        assert(!taken.contains(entity)) by {
            if taken.contains(entity) {
                let k = choose|k: int| 0 <= k < taken.len() && taken[k] == entity;
                assert(drained@[k] == drained@[i as int]);
            }
        }
        assert(taken.push(entity).to_set() =~= taken.to_set().insert(entity)) by {
            taken.lemma_push_to_set_commute(entity);
        }
        let ghost connected_before = connected@;
        if connected.remove(&entity) {
            assert(connected_before.contains(entity));
            assert(old(connected)@.contains(entity));
            let ghost before = events@;
            events.push(NetworkEvent::Disconnected { entity });
            let ghost added = NetworkEvent::Disconnected { entity };
            assert(events@ == before.push(added));
            assert forall|e: NetworkEvent| #[trigger] events@.contains(e) <==> (before.contains(e)
                || e == added) by {
                if events@.contains(e) && e != added {
                    let k = choose|k: int| 0 <= k < events@.len() && events@[k] == e;
                    assert(before[k] == e);
                }
                if before.contains(e) {
                    let k = choose|k: int| 0 <= k < before.len() && before[k] == e;
                    assert(events@[k] == e);
                }
                if e == added {
                    assert(events@[before.len() as int] == e);
                }
            }
            assert forall|e: NetworkEvent| #[trigger] events@.contains(e) <==> (e matches NetworkEvent::Disconnected {
                entity: x,
            } && drained@.take(i + 1).contains(x) && old(connected)@.contains(x)) by {
                assert(drained@.take(i + 1)[i as int] == entity);
                if e == added {
                    assert(drained@.take(i + 1).contains(entity));
                } else {
                    assert(events@.contains(e) == before.contains(e));
                    if let NetworkEvent::Disconnected { entity: x } = e {
                        assert(drained@.take(i + 1).contains(x) <==> taken.contains(x)) by {
                            let next = drained@.take(i + 1);
                            if next.contains(x) {
                                let k = choose|k: int| 0 <= k < next.len() && next[k] == x;
                                assert(taken[k] == x);
                            }
                            if taken.contains(x) {
                                let k = choose|k: int| 0 <= k < i && taken[k] == x;
                                assert(next[k] == x);
                            }
                        }
                    }
                }
            }
            assert(events@.no_duplicates()) by {
                assert(!before.contains(NetworkEvent::Disconnected { entity }));
            }
        } else {
            assert forall|e: NetworkEvent| #[trigger] events@.contains(e) <==> (e matches NetworkEvent::Disconnected {
                entity: x,
            } && drained@.take(i + 1).contains(x) && old(connected)@.contains(x)) by {
                if let NetworkEvent::Disconnected { entity: x } = e {
                    if x == entity {
                        assert(!old(connected)@.contains(x));
                    }
                }
            }
        }
        assert(connected@ =~= old(connected)@.difference(drained@.take(i + 1).to_set()));
        i += 1;
    }
    assert(drained@.take(drained.len() as int) =~= drained@);
    assert(connected@ =~= old(connected)@.difference(old(disconnections).pending()));
    events
}

/// What a client that is not playing yet sent, as far as its handshake is concerned.
#[derive(Clone, Debug)]
pub enum HandshakeMessage {
    /// The client identified itself with its name.
    Identification { name: String },
    /// The client was to identify itself, but the message could not be read as an
    /// identification.
    Unreadable,
    /// The client asks for the game's assets.
    AssetRequest,
    /// The client is ready to play.
    ClientReady,
    /// Any other message.
    Other,
}

/// What is to be done with a client that is not playing yet after one of its messages.
#[derive(Clone, Debug)]
pub enum HandshakeAction {
    /// Drop the connection.
    Disconnect,
    /// Send the server's configuration.
    SendServerConfig,
    /// Start sending the assets.
    SendAssets,
    /// Spawn a player with this name, and move the connection to the established ones.
    Admit { username: String },
}

/// A connection whose client is not playing yet. It has to identify itself first; it may
/// then ask for the game's assets, and is admitted as a player when it says it is ready.
#[derive(Debug)]
pub struct UninitializedConnection {
    /// The name the client identified itself with.
    pub username: Option<String>,
    /// How many bytes of the assets were sent, while they are being sent.
    pub asset_download_progress: Option<usize>,
}

impl UninitializedConnection {
    /// A connection that has not identified itself.
    pub fn new() -> (r: UninitializedConnection)
        ensures
            r.username is None,
            r.asset_download_progress is None,
    {
        UninitializedConnection { username: None, asset_download_progress: None }
    }

    /// Whether its next message must be an identification.
    pub fn expects_identification(&self) -> (r: bool)
        ensures
            r == self.username is None,
    {
        self.username.is_none()
    }

    /// Records that `sent` more bytes of the assets, `total` bytes long, went out: once all of
    /// them did, the download is over.
    pub fn advance_download(&mut self, sent: usize, total: usize)
        requires
            old(self).asset_download_progress matches Some(progress) && progress + sent <= total,
        ensures
            final(self).username == old(self).username,
            final(self).asset_download_progress == ({
                let progress = old(self).asset_download_progress->Some_0;
                if progress + sent == total {
                    None
                } else {
                    Some((progress + sent) as usize)
                }
            }),
    {
        let progress = match self.asset_download_progress {
            Some(p) => p,
            None => 0,
        };
        let new_progress = progress + sent;
        if new_progress == total {
            self.asset_download_progress = None;
        } else {
            self.asset_download_progress = Some(new_progress);
        }
    }

    /// Handles a message of the client. A client that has not identified itself must do so
    /// first: its name is kept and the server's configuration is sent, anything else drops
    /// it. An identified client may ask for the assets, whose sending then starts from the
    /// beginning, or say it is ready, which admits it under its name; anything else drops it.
    pub fn handle_message(&mut self, message: HandshakeMessage) -> (r: HandshakeAction)
        ensures
            match old(self).username {
                None => match message {
                    HandshakeMessage::Identification { name } => {
                        &&& r is SendServerConfig
                        &&& final(self).username == Some(name)
                        &&& final(self).asset_download_progress == old(self).asset_download_progress
                    },
                    _ => r is Disconnect && *final(self) == *old(self),
                },
                Some(username) => match message {
                    HandshakeMessage::AssetRequest => {
                        &&& r is SendAssets
                        &&& final(self).username == old(self).username
                        &&& final(self).asset_download_progress == Some(0usize)
                    },
                    HandshakeMessage::ClientReady => {
                        &&& r matches HandshakeAction::Admit { username: name } && name == username
                        &&& final(self).username is None
                        &&& final(self).asset_download_progress == old(self).asset_download_progress
                    },
                    _ => r is Disconnect && *final(self) == *old(self),
                },
            },
    {
        if self.username.is_none() {
            match message {
                HandshakeMessage::Identification { name } => {
                    self.username = Some(name);
                    HandshakeAction::SendServerConfig
                },
                _ => HandshakeAction::Disconnect,
            }
        } else {
            match message {
                HandshakeMessage::AssetRequest => {
                    self.asset_download_progress = Some(0);
                    HandshakeAction::SendAssets
                },
                HandshakeMessage::ClientReady => {
                    let username = self.username.take();
                    match username {
                        Some(name) => HandshakeAction::Admit { username: name },
                        None => HandshakeAction::Disconnect,
                    }
                },
                _ => HandshakeAction::Disconnect,
            }
        }
    }
}

} // verus!
