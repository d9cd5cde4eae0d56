use vstd::prelude::*;

verus! {

/// One-byte instructions of the client/server protocol.
pub enum TcpInstruction {
    Invalid,
    SendGrid,
    GridComplete,
    CloseConnection,
    RequestConfiguration,
}

impl TcpInstruction {
    /// The instruction a received byte stands for.
    pub open spec fn spec_from_byte(byte: u8) -> TcpInstruction {
        if byte == 0x00 {
            TcpInstruction::SendGrid
        } else if byte == 0x01 {
            TcpInstruction::GridComplete
        } else if byte == 0x02 {
            TcpInstruction::CloseConnection
        } else if byte == 0x03 {
            TcpInstruction::RequestConfiguration
        } else {
            TcpInstruction::Invalid
        }
    }

    /// The byte an instruction is sent as.
    pub open spec fn spec_to_byte(self) -> u8 {
        match self {
            TcpInstruction::SendGrid => 0x00,
            TcpInstruction::GridComplete => 0x01,
            TcpInstruction::CloseConnection => 0x02,
            TcpInstruction::RequestConfiguration => 0x03,
            TcpInstruction::Invalid => 0xFF,
        }
    }

    pub fn from_byte(byte: u8) -> (result: Self)
        ensures
            result == Self::spec_from_byte(byte),
    {
        match byte {
            0x00 => TcpInstruction::SendGrid,
            0x01 => TcpInstruction::GridComplete,
            0x02 => TcpInstruction::CloseConnection,
            0x03 => TcpInstruction::RequestConfiguration,
            _ => TcpInstruction::Invalid,
        }
    }

    pub fn to_byte(&self) -> (result: u8)
        ensures
            result == self.spec_to_byte(),
    {
        match self {
            TcpInstruction::SendGrid => 0x00,
            TcpInstruction::GridComplete => 0x01,
            TcpInstruction::CloseConnection => 0x02,
            TcpInstruction::RequestConfiguration => 0x03,
            TcpInstruction::Invalid => 0xFF,
        }
    }
}

/// The instruction bytes: 0x00 sends a buffer, 0x01 completes a grid, 0x02
/// closes, 0x03 asks for the configuration; any other byte is invalid and
/// `Invalid` is sent as 0xFF.
pub proof fn lemma_instruction_bytes(byte: u8)
    ensures
        (TcpInstruction::spec_from_byte(byte) == TcpInstruction::SendGrid) == (byte == 0x00),
        (TcpInstruction::spec_from_byte(byte) == TcpInstruction::GridComplete) == (byte == 0x01),
        (TcpInstruction::spec_from_byte(byte) == TcpInstruction::CloseConnection) == (byte == 0x02),
        (TcpInstruction::spec_from_byte(byte) == TcpInstruction::RequestConfiguration) == (byte == 0x03),
        (TcpInstruction::spec_from_byte(byte) == TcpInstruction::Invalid) == (byte > 0x03),
        TcpInstruction::Invalid.spec_to_byte() == 0xFF,
{
}

/// Decoding the byte of any instruction gives that instruction back.
pub proof fn lemma_instruction_byte_roundtrip(instruction: TcpInstruction)
    ensures
        TcpInstruction::spec_from_byte(instruction.spec_to_byte()) == instruction,
{
}

/// Every byte below four names an instruction that is sent as that same
/// byte; every other byte is read as `Invalid`.
pub proof fn lemma_byte_instruction_roundtrip(byte: u8)
    ensures
        byte < 4 ==> TcpInstruction::spec_from_byte(byte).spec_to_byte() == byte,
        byte >= 4 ==> TcpInstruction::spec_from_byte(byte) == TcpInstruction::Invalid,
{
}


/// The views of the elements of a sequence, in order.
pub open spec fn seq_views<T: View>(s: Seq<T>) -> Seq<T::V> {
    Seq::new(s.len(), |i: int| s[i]@)
}

/// The 256-byte buffer that carries `chunk` (at most 255 bytes): the length,
/// the bytes, then zeros.
pub open spec fn frame_chunk(chunk: Seq<u8>) -> Seq<u8> {
    seq![chunk.len() as u8] + chunk + Seq::new((255 - chunk.len()) as nat, |j: int| 0u8)
}

/// `data` cut into chunks of 255 bytes (the last one possibly shorter), each
/// framed in a 256-byte buffer; no buffer at all for empty data.
pub open spec fn spec_buffers(data: Seq<u8>) -> Seq<Seq<u8>>
    decreases data.len(),
{
    if data.len() == 0 {
        Seq::empty()
    } else if data.len() <= 255 {
        seq![frame_chunk(data)]
    } else {
        seq![frame_chunk(data.take(255))] + spec_buffers(data.skip(255))
    }
}

/// The payload a 256-byte buffer carries: the bytes after the first, as many
/// as the first byte says.
pub open spec fn buffer_payload(buffer: Seq<u8>) -> Seq<u8> {
    buffer.subrange(1, buffer[0] as int + 1)
}

/// The payloads of a sequence of buffers, one after the other.
pub open spec fn payloads(buffers: Seq<Seq<u8>>) -> Seq<u8>
    decreases buffers.len(),
{
    if buffers.len() == 0 {
        Seq::empty()
    } else {
        buffer_payload(buffers[0]) + payloads(buffers.drop_first())
    }
}

proof fn lemma_frame_chunk(chunk: Seq<u8>)
    requires
        chunk.len() <= 255,
    ensures
        frame_chunk(chunk).len() == 256,
        buffer_payload(frame_chunk(chunk)) == chunk,
{
    assert(buffer_payload(frame_chunk(chunk)) =~= chunk);
}

/// Each buffer of `spec_buffers` is 256 bytes long.
pub proof fn lemma_buffers_len(data: Seq<u8>)
    ensures
        forall|i: int| 0 <= i < spec_buffers(data).len() ==> #[trigger] spec_buffers(data)[i].len() == 256,
    decreases data.len(),
{
    if data.len() == 0 {
    } else if data.len() <= 255 {
        lemma_frame_chunk(data);
    } else {
        lemma_frame_chunk(data.take(255));
        lemma_buffers_len(data.skip(255));
        let bufs = spec_buffers(data);
        assert forall|i: int| 0 <= i < bufs.len() implies #[trigger] bufs[i].len() == 256 by {
            if i > 0 {
                assert(bufs[i] == spec_buffers(data.skip(255))[i - 1]);
            }
        }
    }
}

/// The payloads of the buffers that `vec_to_buffers` makes of `data`, put
/// back together in order, are `data` again.
pub proof fn lemma_buffers_roundtrip(data: Seq<u8>)
    ensures
        payloads(spec_buffers(data)) == data,
    decreases data.len(),
{
    if data.len() == 0 {
    } else if data.len() <= 255 {
        lemma_frame_chunk(data);
        assert(seq![frame_chunk(data)].drop_first() =~= Seq::<Seq<u8>>::empty());
        assert(payloads(Seq::<Seq<u8>>::empty()) == Seq::<u8>::empty());
        assert(data + Seq::<u8>::empty() =~= data);
    } else {
        lemma_frame_chunk(data.take(255));
        lemma_buffers_roundtrip(data.skip(255));
        let bufs = spec_buffers(data);
        assert(bufs.drop_first() =~= spec_buffers(data.skip(255)));
        assert(data.take(255) + data.skip(255) =~= data);
    }
}

/// The buffers of `data` are `ceil(len / 255)` in number, and buffer `i`
/// carries bytes `255 * i` up to `255 * (i + 1)` (or the end) of `data`: every
/// buffer but the last is full.
pub proof fn lemma_buffers_chunks(data: Seq<u8>)
    ensures
        spec_buffers(data).len() == (data.len() + 254) / 255,
        forall|i: int|
            0 <= i < spec_buffers(data).len() ==> #[trigger] buffer_payload(spec_buffers(data)[i]) == data.subrange(
                255 * i,
                if 255 * i + 255 <= data.len() { 255 * i + 255 } else { data.len() as int },
            ),
    decreases data.len(),
{
    let bufs = spec_buffers(data);
    if data.len() == 0 {
    } else if data.len() <= 255 {
        lemma_frame_chunk(data);
        assert(data.subrange(0, data.len() as int) =~= data);
    } else {
        let rest = data.skip(255);
        lemma_frame_chunk(data.take(255));
        lemma_buffers_chunks(rest);
        assert forall|i: int|
            0 <= i < bufs.len() implies #[trigger] buffer_payload(bufs[i]) == data.subrange(
                255 * i,
                if 255 * i + 255 <= data.len() { 255 * i + 255 } else { data.len() as int },
            ) by {
            if i == 0 {
                assert(data.take(255) =~= data.subrange(0, 255));
            } else {
                assert(bufs[i] == spec_buffers(rest)[i - 1]);
                let j = i - 1;
                let end = if 255 * j + 255 <= rest.len() { 255 * j + 255 } else { rest.len() as int };
                assert(rest.subrange(255 * j, end) =~= data.subrange(255 * i, end + 255));
            }
        }
    }
}

/// Cuts `vec` into chunks of at most 255 bytes and frames each in a 256-byte
/// buffer whose first byte is the chunk's length.
pub fn vec_to_buffers(vec: &[u8]) -> (result: Vec<Vec<u8>>)
    ensures
        seq_views(result@) == spec_buffers(vec@),
{
    let mut chunk_buffer: Vec<Vec<u8>> = Vec::new();
    let mut start: usize = 0;
    assert(vec@.skip(0) =~= vec@);
    assert(seq_views(chunk_buffer@) + spec_buffers(vec@) =~= spec_buffers(vec@));
    while start < vec.len()
        invariant
            start <= vec.len(),
            seq_views(chunk_buffer@) + spec_buffers(vec@.skip(start as int)) == spec_buffers(vec@),
        decreases vec.len() - start,
    {
        let remaining: usize = vec.len() - start;
        let len: usize = if remaining > 255 { 255 } else { remaining };
        let mut b: Vec<u8> = vec![0; 256];
        let mut i: usize = 0;
        while i < len
            invariant
                i <= len,
                len <= 255,
                start + len <= vec.len(),
                b@.len() == 256,
                b@.subrange(1, i + 1) =~= vec@.subrange(start as int, start + i),
                forall|j: int| i + 1 <= j < 256 ==> b@[j] == 0u8,
            decreases len - i,
        {
            b.set(i + 1, vec[start + i]);
            i = i + 1;
            assert(b@.subrange(1, i + 1) =~= vec@.subrange(start as int, start + i));
        }
        b.set(0, len as u8);
        let ghost rest = vec@.skip(start as int);
        let ghost chunk = if rest.len() <= 255 { rest } else { rest.take(255) };
        proof {
            assert(chunk =~= vec@.subrange(start as int, start + len));
            assert(b@ =~= frame_chunk(chunk));
            if rest.len() > 255 {
                assert(rest.skip(255) =~= vec@.skip(start + 255));
            } else {
                assert(vec@.skip(start + len) =~= Seq::<u8>::empty());
            }
        }
        let ghost old_view = seq_views(chunk_buffer@);
        chunk_buffer.push(b);
        proof {
            assert(seq_views(chunk_buffer@) =~= old_view.push(frame_chunk(chunk)));
            assert(seq_views(chunk_buffer@) + spec_buffers(vec@.skip(start + len)) =~= old_view
                + spec_buffers(rest));
        }
        start = start + len;
    }
    proof {
        assert(spec_buffers(vec@.skip(start as int)) =~= Seq::<Seq<u8>>::empty());
        assert(seq_views(chunk_buffer@) + Seq::<Seq<u8>>::empty() =~= seq_views(chunk_buffer@));
    }
    chunk_buffer
}

/// The payload of a 256-byte buffer: bytes `1..=buffer[0]`.
pub fn trim_buffer(buffer: &[u8; 256]) -> (result: Vec<u8>)
    ensures
        result@ == buffer_payload(buffer@),
{
    let length = buffer[0];
    let mut b: Vec<u8> = Vec::with_capacity(length as usize);
    let mut i: usize = 1;
    while i <= length as usize
        invariant
            1 <= i <= length as usize + 1,
            length == buffer@[0],
            buffer@.len() == 256,
            b@ =~= buffer@.subrange(1, i as int),
        decreases length as usize + 1 - i,
    {
        b.push(buffer[i]);
        i = i + 1;
    }
    b
}


/// Appending a buffer appends its payload.
pub proof fn lemma_payloads_push(buffers: Seq<Seq<u8>>, last: Seq<u8>)
    ensures
        payloads(buffers.push(last)) == payloads(buffers) + buffer_payload(last),
    decreases buffers.len(),
{
    if buffers.len() == 0 {
        assert(buffers.push(last).drop_first() =~= Seq::<Seq<u8>>::empty());
        assert(payloads(Seq::<Seq<u8>>::empty()) == Seq::<u8>::empty());
        assert(buffer_payload(last) + Seq::<u8>::empty() =~= Seq::<u8>::empty() + buffer_payload(last));
    } else {
        lemma_payloads_push(buffers.drop_first(), last);
        assert(buffers.push(last).drop_first() =~= buffers.drop_first().push(last));
        assert(buffer_payload(buffers[0]) + (payloads(buffers.drop_first()) + buffer_payload(last))
            =~= (buffer_payload(buffers[0]) + payloads(buffers.drop_first())) + buffer_payload(last));
    }
}

/// The bytes that carry a sequence of buffers: each buffer preceded by the
/// `SendGrid` instruction byte.
pub open spec fn send_frames(buffers: Seq<Seq<u8>>) -> Seq<u8>
    decreases buffers.len(),
{
    if buffers.len() == 0 {
        Seq::empty()
    } else {
        send_frames(buffers.drop_last()) + seq![TcpInstruction::SendGrid.spec_to_byte()]
            + buffers.last()
    }
}

/// The bytes of one whole message carrying `data`: its buffers, each after a
/// `SendGrid` byte, then the `GridComplete` byte.
pub open spec fn spec_message(data: Seq<u8>) -> Seq<u8> {
    send_frames(spec_buffers(data)) + seq![TcpInstruction::GridComplete.spec_to_byte()]
}

/// How a peer reads one message from a byte stream, having received
/// `received` so far: a `SendGrid` byte is followed by a 256-byte buffer
/// whose payload is appended, `GridComplete` ends the message, any other byte
/// is skipped. The result is the message and the bytes after it, or `None`
/// when the stream ends first.
pub open spec fn receive_message(received: Seq<u8>, bytes: Seq<u8>) -> Option<(Seq<u8>, Seq<u8>)>
    decreases bytes.len(),
{
    if bytes.len() == 0 {
        None
    } else {
        match TcpInstruction::spec_from_byte(bytes[0]) {
            TcpInstruction::SendGrid => if bytes.len() < 257 {
                None
            } else {
                receive_message(
                    received + buffer_payload(bytes.subrange(1, 257)),
                    bytes.skip(257),
                )
            },
            TcpInstruction::GridComplete => Some((received, bytes.skip(1))),
            _ => receive_message(received, bytes.skip(1)),
        }
    }
}

proof fn lemma_receive_frames(received: Seq<u8>, buffers: Seq<Seq<u8>>, tail: Seq<u8>)
    requires
        forall|i: int| 0 <= i < buffers.len() ==> #[trigger] buffers[i].len() == 256,
    ensures
        receive_message(received, send_frames(buffers) + tail) == receive_message(
            received + payloads(buffers),
            tail,
        ),
    decreases buffers.len(),
{
    if buffers.len() == 0 {
        assert(send_frames(buffers) + tail =~= tail);
        assert(received + payloads(buffers) =~= received);
    } else {
        let prefix = buffers.drop_last();
        let last = buffers.last();
        let tail2 = seq![0u8] + last + tail;
        lemma_receive_frames(received, prefix, tail2);
        assert(send_frames(buffers) + tail =~= send_frames(prefix) + tail2);
        let acc = received + payloads(prefix);
        assert(tail2.subrange(1, 257) =~= last);
        assert(tail2.skip(257) =~= tail);
        assert(prefix.push(last) =~= buffers);
        lemma_payloads_push(prefix, last);
        assert(acc + buffer_payload(last) =~= received + payloads(buffers));
    }
}

/// A peer that reads the bytes of a message carrying `data`, followed by
/// anything, gets exactly `data`, and the bytes after the message are left
/// to read.
pub proof fn lemma_message_roundtrip(data: Seq<u8>, rest: Seq<u8>)
    ensures
        receive_message(Seq::empty(), spec_message(data) + rest) == Some((data, rest)),
{
    let buffers = spec_buffers(data);
    lemma_buffers_len(data);
    lemma_buffers_roundtrip(data);
    let tail = seq![1u8] + rest;
    lemma_receive_frames(Seq::empty(), buffers, tail);
    assert(spec_message(data) + rest =~= send_frames(buffers) + tail);
    assert(Seq::<u8>::empty() + payloads(buffers) =~= data);
    assert(tail.skip(1) =~= rest);
}

/// The bytes of a whole message carrying `data`: each 256-byte buffer of
/// `vec_to_buffers(data)` after a `SendGrid` byte, then `GridComplete`.
pub fn encode_message(data: &[u8]) -> (result: Vec<u8>)
    ensures
        result@ == spec_message(data@),
{
    let buffers = vec_to_buffers(data);
    let mut out: Vec<u8> = Vec::new();
    let mut i: usize = 0;
    while i < buffers.len()
        invariant
            i <= buffers.len(),
            seq_views(buffers@) == spec_buffers(data@),
            out@ == send_frames(seq_views(buffers@).take(i as int)),
        decreases buffers.len() - i,
    {
        let ghost before = out@;
        out.push(TcpInstruction::SendGrid.to_byte());
        let buffer = &buffers[i];
        let mut j: usize = 0;
        while j < buffer.len()
            invariant
                j <= buffer.len(),
                out@ == before + seq![0u8] + buffer@.take(j as int),
            decreases buffer.len() - j,
        {
            out.push(buffer[j]);
            j = j + 1;
            assert(out@ =~= before + seq![0u8] + buffer@.take(j as int));
        }
        proof {
            let views = seq_views(buffers@);
            assert(views.take(i + 1).drop_last() =~= views.take(i as int));
            assert(buffer@.take(j as int) =~= buffer@);
            assert(views.take(i + 1).last() == buffer@);
        }
        i = i + 1;
    }
    out.push(TcpInstruction::GridComplete.to_byte());
    proof {
        assert(seq_views(buffers@).take(i as int) =~= seq_views(buffers@));
    }
    out
}

} // verus!
