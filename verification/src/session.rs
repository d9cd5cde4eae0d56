//! The decisions of both ends of a connection, one received instruction or
//! buffer at a time; reading and writing the socket is the caller's part.
use vstd::prelude::*;
use crate::protocol::{
    TcpInstruction, buffer_payload, encode_message, spec_message, send_frames, spec_buffers,
    payloads, receive_message, lemma_payloads_push, trim_buffer, lemma_buffers_len, lemma_buffers_roundtrip,
    lemma_message_roundtrip,
};
use crate::config::{MatrixConfiguration, configuration_bytes, configuration_from};

verus! {

/// What the server does after reading one instruction byte.
pub enum ServerAction {
    /// Nothing; read the next instruction.
    Ignore,
    /// Read a 256-byte buffer and hand it to `on_buffer`.
    ReadBuffer,
    /// A grid is complete: pass these bytes on to the display.
    Publish(Vec<u8>),
    /// End the connection.
    Close,
    /// Write these bytes back to the client.
    Reply(Vec<u8>),
}

/// One client connection on the server: the grid bytes received so far and
/// the display size to report.
pub struct ServerSession {
    pub grid_bytes: Vec<u8>,
    pub configuration: (u8, u8),
}

/// The bytes the server answers a configuration request with: a message
/// carrying the width and the height.
pub open spec fn configuration_reply(configuration: (u8, u8)) -> Seq<u8> {
    spec_message(seq![configuration.0, configuration.1])
}

/// A server decision as a value: `ServerAction` with its bytes taken by
/// their view.
pub enum ServerStep {
    Ignore,
    ReadBuffer,
    Publish(Seq<u8>),
    Close,
    Reply(Seq<u8>),
}

/// The decision an action carries.
pub open spec fn action_view(action: ServerAction) -> ServerStep {
    match action {
        ServerAction::Ignore => ServerStep::Ignore,
        ServerAction::ReadBuffer => ServerStep::ReadBuffer,
        ServerAction::Publish(bytes) => ServerStep::Publish(bytes@),
        ServerAction::Close => ServerStep::Close,
        ServerAction::Reply(bytes) => ServerStep::Reply(bytes@),
    }
}

/// One instruction byte for a session holding `grid_bytes`: the grid bytes
/// after it and the decision. `SendGrid` asks for a buffer, `GridComplete`
/// publishes the grid bytes and empties them, `CloseConnection` closes,
/// `RequestConfiguration` answers with the configuration, anything else is
/// ignored.
pub open spec fn server_step(grid_bytes: Seq<u8>, configuration: (u8, u8), byte: u8) -> (Seq<u8>, ServerStep) {
    match TcpInstruction::spec_from_byte(byte) {
        TcpInstruction::Invalid => (grid_bytes, ServerStep::Ignore),
        TcpInstruction::SendGrid => (grid_bytes, ServerStep::ReadBuffer),
        TcpInstruction::GridComplete => (Seq::empty(), ServerStep::Publish(grid_bytes)),
        TcpInstruction::CloseConnection => (grid_bytes, ServerStep::Close),
        TcpInstruction::RequestConfiguration => (grid_bytes, ServerStep::Reply(configuration_reply(configuration))),
    }
}

/// The grid bytes after a 256-byte buffer: its payload appended.
pub open spec fn server_buffer(grid_bytes: Seq<u8>, buffer: Seq<u8>) -> Seq<u8> {
    grid_bytes + buffer_payload(buffer)
}

impl ServerSession {
    pub fn new(configuration: (u8, u8)) -> (session: Self)
        ensures
            session.grid_bytes@ == Seq::<u8>::empty(),
            session.configuration == configuration,
    {
        ServerSession { grid_bytes: Vec::new(), configuration }
    }

    /// Decides what to do with one instruction byte from the client.
    pub fn on_instruction(&mut self, byte: u8) -> (action: ServerAction)
        ensures
            final(self).configuration == old(self).configuration,
            (final(self).grid_bytes@, action_view(action)) == server_step(
                old(self).grid_bytes@,
                old(self).configuration,
                byte,
            ),
    {
        match TcpInstruction::from_byte(byte) {
            TcpInstruction::Invalid => ServerAction::Ignore,
            TcpInstruction::GridComplete => {
                let bytes = self.grid_bytes.clone();
                self.grid_bytes.clear();
                ServerAction::Publish(bytes)
            },
            TcpInstruction::SendGrid => ServerAction::ReadBuffer,
            TcpInstruction::CloseConnection => ServerAction::Close,
            TcpInstruction::RequestConfiguration => {
                let data = [self.configuration.0, self.configuration.1];
                let reply = encode_message(&data);
                assert(data@ =~= seq![self.configuration.0, self.configuration.1]);
                ServerAction::Reply(reply)
            },
        }
    }

    /// Takes in the 256-byte buffer that followed a `SendGrid` byte.
    pub fn on_buffer(&mut self, buffer: &[u8; 256])
        ensures
            final(self).configuration == old(self).configuration,
            final(self).grid_bytes@ == server_buffer(old(self).grid_bytes@, buffer@),
    {
        let mut payload = trim_buffer(buffer);
        self.grid_bytes.append(&mut payload);
    }
}

/// What the client does after reading one instruction byte while it waits
/// for the configuration.
pub enum ReaderStep {
    /// Nothing; read the next instruction.
    Ignore,
    /// Read a 256-byte buffer and hand it to `on_buffer`.
    ReadBuffer,
    /// The reply is complete; this is the configuration it decodes to.
    Done(Option<MatrixConfiguration>),
}

/// The client's side of a configuration request: the reply bytes received so
/// far.
pub struct ConfigurationReader {
    pub data: Vec<u8>,
}

/// The client's decision on one instruction byte, having received `data`
/// of the reply: `SendGrid` asks for a buffer, `GridComplete` ends the reply
/// with the configuration `data` decodes to, anything else is ignored.
pub open spec fn reader_step(data: Seq<u8>, byte: u8) -> ReaderStep {
    match TcpInstruction::spec_from_byte(byte) {
        TcpInstruction::SendGrid => ReaderStep::ReadBuffer,
        TcpInstruction::GridComplete => ReaderStep::Done(configuration_from(data)),
        _ => ReaderStep::Ignore,
    }
}

/// The reply data after a 256-byte buffer: its payload appended.
pub open spec fn reader_buffer(data: Seq<u8>, buffer: Seq<u8>) -> Seq<u8> {
    data + buffer_payload(buffer)
}

/// What a client that has received `data` of the reply gets when it reads
/// `bytes`: the configuration (if the reply decodes) and the bytes after the
/// reply, or `None` when the stream ends first. It is built from
/// `reader_step` and `reader_buffer`, the very steps `on_instruction` and
/// `on_buffer` take.
pub open spec fn read_reply(data: Seq<u8>, bytes: Seq<u8>) -> Option<(Option<MatrixConfiguration>, Seq<u8>)>
    decreases bytes.len(),
{
    if bytes.len() == 0 {
        None
    } else {
        match reader_step(data, bytes[0]) {
            ReaderStep::ReadBuffer => if bytes.len() < 257 {
                None
            } else {
                read_reply(reader_buffer(data, bytes.subrange(1, 257)), bytes.skip(257))
            },
            ReaderStep::Done(configuration) => Some((configuration, bytes.skip(1))),
            ReaderStep::Ignore => read_reply(data, bytes.skip(1)),
        }
    }
}

/// The client reads a reply as the protocol reads any message, then decodes
/// what it received as a configuration.
pub proof fn lemma_read_reply_is_receive_message(data: Seq<u8>, bytes: Seq<u8>)
    ensures
        read_reply(data, bytes) == match receive_message(data, bytes) {
            Some((message, rest)) => Some((configuration_from(message), rest)),
            None => None,
        },
    decreases bytes.len(),
{
    if bytes.len() > 0 {
        match TcpInstruction::spec_from_byte(bytes[0]) {
            TcpInstruction::SendGrid => {
                if bytes.len() >= 257 {
                    lemma_read_reply_is_receive_message(
                        data + buffer_payload(bytes.subrange(1, 257)),
                        bytes.skip(257),
                    );
                }
            },
            TcpInstruction::GridComplete => {},
            _ => {
                lemma_read_reply_is_receive_message(data, bytes.skip(1));
            },
        }
    }
}

impl ConfigurationReader {
    pub fn new() -> (reader: Self)
        ensures
            reader.data@ == Seq::<u8>::empty(),
    {
        ConfigurationReader { data: Vec::new() }
    }

    /// Decides what to do with one instruction byte from the server.
    pub fn on_instruction(&mut self, byte: u8) -> (step: ReaderStep)
        ensures
            final(self).data@ == old(self).data@,
            step == reader_step(old(self).data@, byte),
    {
        match TcpInstruction::from_byte(byte) {
            TcpInstruction::SendGrid => ReaderStep::ReadBuffer,
            TcpInstruction::GridComplete => ReaderStep::Done(MatrixConfiguration::from_bytes(self.data.as_slice())),
            _ => ReaderStep::Ignore,
        }
    }

    /// Takes in the 256-byte buffer that followed a `SendGrid` byte.
    pub fn on_buffer(&mut self, buffer: &[u8; 256])
        ensures
            final(self).data@ == reader_buffer(old(self).data@, buffer@),
    {
        let payload = trim_buffer(buffer);
        let mut i: usize = 0;
        let ghost start = self.data@;
        while i < payload.len()
            invariant
                i <= payload@.len(),
                self.data@ == start + payload@.take(i as int),
            decreases payload@.len() - i,
        {
            self.data.push(payload[i]);
            i = i + 1;
            assert(self.data@ =~= start + payload@.take(i as int));
        }
        assert(payload@.take(i as int) =~= payload@);
    }
}

/// What the server's side of a connection brings about.
pub enum ServerOutput {
    /// Grid bytes passed on to the display.
    Published(Seq<u8>),
    /// Bytes written back to the client.
    Replied(Seq<u8>),
}

/// What a server session that has received `grid_bytes` so far brings about
/// when it reads `bytes` until the connection ends: `SendGrid` and the
/// 256-byte buffer after it append the buffer's payload, `GridComplete`
/// publishes the bytes received and starts over, `CloseConnection` (or the
/// stream ending, also within a buffer) ends it, `RequestConfiguration` is
/// answered, any other byte is skipped. It is built from `server_step` and
/// `server_buffer`, the very steps `on_instruction` and `on_buffer` take, so
/// it is what a caller that drives `ServerSession` by its actions does.
pub open spec fn serve(grid_bytes: Seq<u8>, configuration: (u8, u8), bytes: Seq<u8>) -> Seq<ServerOutput>
    decreases bytes.len(),
{
    if bytes.len() == 0 {
        Seq::empty()
    } else {
        let (next, step) = server_step(grid_bytes, configuration, bytes[0]);
        match step {
            ServerStep::Ignore => serve(next, configuration, bytes.skip(1)),
            ServerStep::ReadBuffer => if bytes.len() < 257 {
                Seq::empty()
            } else {
                serve(server_buffer(next, bytes.subrange(1, 257)), configuration, bytes.skip(257))
            },
            ServerStep::Publish(published) => seq![ServerOutput::Published(published)] + serve(
                next,
                configuration,
                bytes.skip(1),
            ),
            ServerStep::Close => Seq::empty(),
            ServerStep::Reply(reply) => seq![ServerOutput::Replied(reply)] + serve(
                next,
                configuration,
                bytes.skip(1),
            ),
        }
    }
}

proof fn lemma_serve_frames(
    grid_bytes: Seq<u8>,
    configuration: (u8, u8),
    buffers: Seq<Seq<u8>>,
    tail: Seq<u8>,
)
    requires
        forall|i: int| 0 <= i < buffers.len() ==> #[trigger] buffers[i].len() == 256,
    ensures
        serve(grid_bytes, configuration, send_frames(buffers) + tail) == serve(
            grid_bytes + payloads(buffers),
            configuration,
            tail,
        ),
    decreases buffers.len(),
{
    if buffers.len() == 0 {
        assert(send_frames(buffers) + tail =~= tail);
        assert(grid_bytes + payloads(buffers) =~= grid_bytes);
    } else {
        let prefix = buffers.drop_last();
        let last = buffers.last();
        let tail2 = seq![0u8] + last + tail;
        lemma_serve_frames(grid_bytes, configuration, prefix, tail2);
        assert(send_frames(buffers) + tail =~= send_frames(prefix) + tail2);
        let acc = grid_bytes + payloads(prefix);
        assert(tail2.subrange(1, 257) =~= last);
        assert(tail2.skip(257) =~= tail);
        assert(prefix.push(last) =~= buffers);
        lemma_payloads_push(prefix, last);
        assert(acc + buffer_payload(last) =~= grid_bytes + payloads(buffers));
    }
}

/// A server session that reads the bytes of a message carrying `data`
/// publishes exactly `data`, then goes on with the bytes after it as a fresh
/// session would.
pub proof fn lemma_server_receives_message(configuration: (u8, u8), data: Seq<u8>, rest: Seq<u8>)
    ensures
        serve(Seq::empty(), configuration, spec_message(data) + rest) == seq![ServerOutput::Published(data)]
            + serve(Seq::empty(), configuration, rest),
{
    let buffers = spec_buffers(data);
    lemma_buffers_len(data);
    lemma_buffers_roundtrip(data);
    let tail = seq![1u8] + rest;
    lemma_serve_frames(Seq::empty(), configuration, buffers, tail);
    assert(spec_message(data) + rest =~= send_frames(buffers) + tail);
    assert(Seq::<u8>::empty() + payloads(buffers) =~= data);
    assert(tail.skip(1) =~= rest);
}

/// A piece of a client's stream that does not end a grid: a 256-byte buffer
/// after a `SendGrid` byte, a byte that is no instruction, or a configuration
/// request.
pub enum StreamItem {
    Frame(Seq<u8>),
    Skip(u8),
    Request,
}

/// Whether an item is well formed: a frame's buffer is 256 bytes, a skipped
/// byte is no instruction (above 3).
pub open spec fn item_fits(item: StreamItem) -> bool {
    match item {
        StreamItem::Frame(buffer) => buffer.len() == 256,
        StreamItem::Skip(byte) => TcpInstruction::spec_from_byte(byte) == TcpInstruction::Invalid,
        StreamItem::Request => true,
    }
}

/// The bytes of an item on the wire.
pub open spec fn item_bytes(item: StreamItem) -> Seq<u8> {
    match item {
        StreamItem::Frame(buffer) => seq![TcpInstruction::SendGrid.spec_to_byte()] + buffer,
        StreamItem::Skip(byte) => seq![byte],
        StreamItem::Request => seq![TcpInstruction::RequestConfiguration.spec_to_byte()],
    }
}

/// The bytes of a sequence of items, one after the other.
pub open spec fn items_bytes(items: Seq<StreamItem>) -> Seq<u8>
    decreases items.len(),
{
    if items.len() == 0 {
        Seq::empty()
    } else {
        item_bytes(items[0]) + items_bytes(items.drop_first())
    }
}

/// The grid bytes a sequence of items carries: the payloads of its frames.
pub open spec fn items_payload(items: Seq<StreamItem>) -> Seq<u8>
    decreases items.len(),
{
    if items.len() == 0 {
        Seq::empty()
    } else {
        let first = match items[0] {
            StreamItem::Frame(buffer) => buffer_payload(buffer),
            _ => Seq::empty(),
        };
        first + items_payload(items.drop_first())
    }
}

/// The replies a sequence of items draws: one per configuration request.
pub open spec fn items_replies(items: Seq<StreamItem>, configuration: (u8, u8)) -> Seq<ServerOutput>
    decreases items.len(),
{
    if items.len() == 0 {
        Seq::empty()
    } else {
        let first = match items[0] {
            StreamItem::Request => seq![ServerOutput::Replied(configuration_reply(configuration))],
            _ => Seq::empty(),
        };
        first + items_replies(items.drop_first(), configuration)
    }
}

/// Whether `rest` is what can follow the items before a grid ends: nothing,
/// a `GridComplete` or `CloseConnection` byte, or a `SendGrid` byte without a
/// whole buffer after it.
pub open spec fn is_stream_end(rest: Seq<u8>) -> bool {
    ||| rest.len() == 0
    ||| TcpInstruction::spec_from_byte(rest[0]) == TcpInstruction::GridComplete
    ||| TcpInstruction::spec_from_byte(rest[0]) == TcpInstruction::CloseConnection
    ||| (TcpInstruction::spec_from_byte(rest[0]) == TcpInstruction::SendGrid && rest.len() < 257)
}

/// Reading well-formed items appends their frames' payloads to the grid
/// bytes and answers their requests, publishing nothing; bytes that are no
/// instruction change nothing.
pub proof fn lemma_serve_items(
    grid_bytes: Seq<u8>,
    configuration: (u8, u8),
    items: Seq<StreamItem>,
    rest: Seq<u8>,
)
    requires
        forall|i: int| 0 <= i < items.len() ==> item_fits(#[trigger] items[i]),
    ensures
        serve(grid_bytes, configuration, items_bytes(items) + rest) == items_replies(items, configuration)
            + serve(grid_bytes + items_payload(items), configuration, rest),
    decreases items.len(),
{
    if items.len() == 0 {
        assert(items_bytes(items) + rest =~= rest);
        assert(grid_bytes + items_payload(items) =~= grid_bytes);
        assert(items_replies(items, configuration) + serve(grid_bytes, configuration, rest) =~= serve(
            grid_bytes,
            configuration,
            rest,
        ));
    } else {
        let first = items[0];
        let others = items.drop_first();
        assert(item_fits(items[0]));
        assert forall|i: int| 0 <= i < others.len() implies item_fits(#[trigger] others[i]) by {
            assert(others[i] == items[i + 1]);
        }
        let tail = items_bytes(others) + rest;
        assert(items_bytes(items) + rest =~= item_bytes(first) + tail);
        match first {
            StreamItem::Frame(buffer) => {
                let bytes = item_bytes(first) + tail;
                assert(bytes.subrange(1, 257) =~= buffer);
                assert(bytes.skip(257) =~= tail);
                let g2 = grid_bytes + buffer_payload(buffer);
                lemma_serve_items(g2, configuration, others, rest);
                assert(g2 + items_payload(others) =~= grid_bytes + items_payload(items));
                assert(items_replies(items, configuration) =~= items_replies(others, configuration));
            },
            StreamItem::Skip(byte) => {
                let bytes = item_bytes(first) + tail;
                assert(bytes.skip(1) =~= tail);
                lemma_serve_items(grid_bytes, configuration, others, rest);
                assert(grid_bytes + items_payload(others) =~= grid_bytes + items_payload(items));
                assert(items_replies(items, configuration) =~= items_replies(others, configuration));
            },
            StreamItem::Request => {
                let bytes = item_bytes(first) + tail;
                assert(bytes.skip(1) =~= tail);
                lemma_serve_items(grid_bytes, configuration, others, rest);
                assert(grid_bytes + items_payload(others) =~= grid_bytes + items_payload(items));
                let reply = seq![ServerOutput::Replied(configuration_reply(configuration))];
                assert(items_replies(items, configuration) =~= reply + items_replies(others, configuration));
                assert(reply + (items_replies(others, configuration) + serve(
                    grid_bytes + items_payload(items),
                    configuration,
                    rest,
                )) =~= items_replies(items, configuration) + serve(
                    grid_bytes + items_payload(items),
                    configuration,
                    rest,
                ));
            },
        }
    }
}

/// Every byte stream is a sequence of well-formed items followed by where
/// the grid ends.
pub proof fn lemma_stream_decomposes(bytes: Seq<u8>) -> (split: (Seq<StreamItem>, Seq<u8>))
    ensures
        forall|i: int| 0 <= i < split.0.len() ==> item_fits(#[trigger] split.0[i]),
        bytes == items_bytes(split.0) + split.1,
        is_stream_end(split.1),
    decreases bytes.len(),
{
    if bytes.len() == 0 {
        assert(bytes =~= items_bytes(Seq::<StreamItem>::empty()) + bytes);
        (Seq::empty(), bytes)
    } else {
        let instruction = TcpInstruction::spec_from_byte(bytes[0]);
        let (first, size): (StreamItem, int) = match instruction {
            TcpInstruction::SendGrid => (StreamItem::Frame(bytes.subrange(1, 257)), 257),
            TcpInstruction::RequestConfiguration => (StreamItem::Request, 1),
            _ => (StreamItem::Skip(bytes[0]), 1),
        };
        if is_stream_end(bytes) {
            assert(bytes =~= items_bytes(Seq::<StreamItem>::empty()) + bytes);
            (Seq::empty(), bytes)
        } else {
            let (others, rest) = lemma_stream_decomposes(bytes.skip(size));
            let items = seq![first] + others;
            assert(items.drop_first() =~= others);
            assert(item_fits(first));
            assert forall|i: int| 0 <= i < items.len() implies item_fits(#[trigger] items[i]) by {
                if i > 0 {
                    assert(items[i] == others[i - 1]);
                }
            }
            assert(item_bytes(first) =~= bytes.subrange(0, size));
            assert(bytes =~= bytes.subrange(0, size) + bytes.skip(size));
            assert(items_bytes(items) + rest =~= item_bytes(first) + (items_bytes(others) + rest));
            (items, rest)
        }
    }
}

/// What a server session does with any byte stream: it reads well-formed
/// items up to where the grid ends, answering each configuration request and
/// appending each frame's payload; then, on `GridComplete`, it publishes the
/// grid bytes it held followed by all those payloads, exactly once, and goes
/// on from the bytes after it with no grid bytes; on `CloseConnection`, on
/// the stream's end or on a buffer cut short it stops. Bytes that are no
/// instruction change neither what is published nor what is answered.
pub proof fn lemma_serve_any_stream(grid_bytes: Seq<u8>, configuration: (u8, u8), bytes: Seq<u8>) -> (split: (
    Seq<StreamItem>,
    Seq<u8>,
))
    ensures
        forall|i: int| 0 <= i < split.0.len() ==> item_fits(#[trigger] split.0[i]),
        bytes == items_bytes(split.0) + split.1,
        is_stream_end(split.1),
        serve(grid_bytes, configuration, bytes) == items_replies(split.0, configuration) + if split.1.len()
            > 0 && TcpInstruction::spec_from_byte(split.1[0]) == TcpInstruction::GridComplete {
            seq![ServerOutput::Published(grid_bytes + items_payload(split.0))] + serve(
                Seq::empty(),
                configuration,
                split.1.skip(1),
            )
        } else {
            Seq::empty()
        },
{
    let (items, rest) = lemma_stream_decomposes(bytes);
    lemma_serve_items(grid_bytes, configuration, items, rest);
    let g = grid_bytes + items_payload(items);
    if rest.len() > 0 && TcpInstruction::spec_from_byte(rest[0]) == TcpInstruction::GridComplete {
        assert(serve(g, configuration, rest) == seq![ServerOutput::Published(g)] + serve(
            Seq::empty(),
            configuration,
            rest.skip(1),
        ));
    } else {
        assert(serve(g, configuration, rest) == Seq::<ServerOutput>::empty());
        assert(items_replies(items, configuration) + Seq::<ServerOutput>::empty() =~= items_replies(
            items,
            configuration,
        ));
    }
    (items, rest)
}

/// A client that reads the server's reply to a configuration request, with
/// anything after it, obtains the server's configuration.
pub proof fn lemma_configuration_exchange(configuration: (u8, u8), rest: Seq<u8>)
    ensures
        read_reply(Seq::empty(), configuration_reply(configuration) + rest) == Some(
            (Some(MatrixConfiguration { width: configuration.0, height: configuration.1 }), rest),
        ),
{
    let data = seq![configuration.0, configuration.1];
    lemma_message_roundtrip(data, rest);
    lemma_read_reply_is_receive_message(Seq::empty(), configuration_reply(configuration) + rest);
    let config = MatrixConfiguration { width: configuration.0, height: configuration.1 };
    assert(configuration_bytes(config) =~= data);
}

/// A message to the server's grid store.
pub enum StreamEvent {
    /// Ask for the latest grid bytes.
    RequestData,
    /// Replace the latest grid bytes.
    SendGrid(Vec<u8>),
}

/// The latest grid bytes any client completed, kept for the display loop.
pub struct GridStore {
    pub data: Vec<u8>,
}

/// The stored bytes after an event.
pub open spec fn store_after(data: Seq<u8>, event: StreamEvent) -> Seq<u8> {
    match event {
        StreamEvent::RequestData => data,
        StreamEvent::SendGrid(bytes) => bytes@,
    }
}

/// The answer to an event: the stored bytes for a request, nothing for an
/// update.
pub open spec fn store_reply(data: Seq<u8>, event: StreamEvent) -> Option<Seq<u8>> {
    match event {
        StreamEvent::RequestData => Some(data),
        StreamEvent::SendGrid(_) => None,
    }
}

impl GridStore {
    pub fn new() -> (store: Self)
        ensures
            store.data@ == Seq::<u8>::empty(),
    {
        GridStore { data: Vec::new() }
    }

    /// Takes one event: an update replaces the stored bytes, a request is
    /// answered with a copy of them.
    pub fn handle(&mut self, event: StreamEvent) -> (reply: Option<Vec<u8>>)
        ensures
            final(self).data@ == store_after(old(self).data@, event),
            match store_reply(old(self).data@, event) {
                Some(bytes) => reply matches Some(r) && r@ == bytes,
                None => reply is None,
            },
    {
        match event {
            StreamEvent::SendGrid(d) => {
                self.data = d;
                None
            },
            StreamEvent::RequestData => Some(self.data.clone()),
        }
    }
}

/// A request after an update is answered with the bytes of that update,
/// whatever was stored before.
pub proof fn lemma_store_read_after_write(data: Seq<u8>, update: Vec<u8>)
    ensures
        store_reply(store_after(data, StreamEvent::SendGrid(update)), StreamEvent::RequestData) == Some(update@),
{
}

} // verus!
