//! The connection state machine: frame assembly over a raw byte stream.
//!
//! The connection owns a growable receive buffer, a growable send queue, a
//! cipher context and a packet registry. Socket I/O itself lives outside:
//! whoever drives the connection feeds received bytes in with `receive`,
//! drains `outgoing` into the socket and acknowledges with `mark_sent`, and
//! asks for the next packet with `poll_packet`. Frames are decoded strictly
//! in arrival order and sent strictly in call order.

use vstd::prelude::*;

use crate::bytes::{append_bytes, drop_front, i32_from_be, u32_from_be, write_i32_be, write_u32_be,
    i32_be_bytes, u32_be_bytes, ByteReader};
use crate::codec::CodecError;
use crate::crypto::{CryptoContext, EmptyCryptoContext, XorCryptoContext, XorCryptoMode,
    xor_table_init, xor_seed};
use crate::packet::{spec_decode_packet, spec_encode_packet, Packet, PacketRegistry,
    PacketRegistryView, SpecPacket, UnknownPacket};
use crate::{FRAME_HEADER_LEN, MAX_FRAME_LEN};

verus! {

/// The lifecycle of a connection: any I/O or framing error, and the end of
/// the byte stream, move it permanently to `Disconnected`.
#[derive(Debug, Clone, Copy, PartialEq, Eq, Structural)]
pub enum ConnectionState {
    Disconnected,
    Connected,
}

/// Errors raised by framing and transport handling.
#[derive(Debug, Clone, Copy, PartialEq, Eq, Structural)]
pub enum ConnectionError {
    /// The peer closed the byte stream.
    SocketEndOfFile,
    /// A frame announced a length below the header size or above the
    /// per-frame cap.
    InvalidPacketSize(usize),
    /// A registered codec rejected a frame's payload.
    DecodeError(CodecError),
    /// The transport failed while receiving.
    RecvError,
    /// Serializing an outbound packet failed.
    SendError(CodecError),
}

/// What one attempt to parse the front of the receive buffer produced.
#[derive(Debug)]
pub enum ParseOutcome {
    /// No complete frame is buffered yet; more bytes are needed.
    Pending,
    /// One frame was consumed and decoded.
    Packet(Packet),
    /// The frame at the front is invalid; the connection must die.
    Failed(ConnectionError),
}

/// What polling the connection for the next packet produced.
#[derive(Debug)]
pub enum PollOutcome {
    /// The connection is disconnected; the packet sequence is exhausted.
    Closed,
    /// No complete frame is buffered yet.
    Pending,
    /// The next decoded packet, in arrival order.
    Packet(Packet),
    /// The terminal error; the connection is now disconnected.
    Failed(ConnectionError),
}

/// The frame boundary at the front of a receive buffer: nothing yet, a
/// rejected length field, or a complete frame (its total length, its packet
/// id, and its still-encrypted payload).
pub enum SpecFrame {
    Incomplete,
    Invalid(int),
    Frame { length: int, packet_id: i32, payload: Seq<u8> },
}

/// Frame boundary detection: at least 8 buffered bytes are needed; the
/// 4-byte length must be at least the header size and at most the per-frame
/// cap; the whole frame must be buffered.
pub open spec fn spec_parse_frame(buf: Seq<u8>) -> SpecFrame {
    if buf.len() < FRAME_HEADER_LEN {
        SpecFrame::Incomplete
    } else {
        let length = u32_from_be(buf) as int;
        if length < FRAME_HEADER_LEN || length > MAX_FRAME_LEN {
            SpecFrame::Invalid(length)
        } else if buf.len() < length {
            SpecFrame::Incomplete
        } else {
            SpecFrame::Frame {
                length,
                packet_id: i32_from_be(buf.skip(4)),
                payload: buf.subrange(FRAME_HEADER_LEN as int, length),
            }
        }
    }
}

/// The payload bytes a packet contributes to its frame: an unknown packet's
/// raw bytes pass through verbatim; a known packet is encoded by the
/// registry.
pub open spec fn spec_send_payload(reg: PacketRegistryView, p: SpecPacket) -> Result<
    Seq<u8>,
    CodecError,
> {
    match p {
        SpecPacket::Unknown { packet_id, payload } => Ok(payload),
        SpecPacket::Known { .. } => spec_encode_packet(reg, p),
    }
}

/// A cipher context keyed for `mode` by `key`, with both directions in
/// their initial state.
pub open spec fn cipher_keyed(c: CryptoContext, key: Seq<i8>, mode: XorCryptoMode) -> bool {
    match c {
        CryptoContext::Xor(x) => {
            let seed = xor_seed(key, key.len() as int) as u8;
            &&& x.enc_table() == xor_table_init(seed, mode is Client)
            &&& x.dec_table() == xor_table_init(seed, mode is Server)
            &&& x.enc_index() == 0
            &&& x.dec_index() == 0
        },
        CryptoContext::Empty(_) => false,
    }
}

/// A connection: one cipher context (identity until the handshake upgrades
/// it), one packet registry, a growable receive buffer and a growable send
/// queue. Created `Connected`; any framing error or end of stream moves it
/// permanently to `Disconnected`.
#[derive(Debug)]
pub struct Connection {
    crypto_context: CryptoContext,
    state: ConnectionState,
    recv_buffer: Vec<u8>,
    send_buffer: Vec<u8>,
    packet_registry: PacketRegistry,
}

impl Connection {
    /// The cipher context.
    pub closed spec fn cipher(self) -> CryptoContext {
        self.crypto_context
    }

    /// The lifecycle state.
    pub closed spec fn spec_state(self) -> ConnectionState {
        self.state
    }

    /// The bytes received but not yet consumed by frame parsing.
    pub closed spec fn recv(self) -> Seq<u8> {
        self.recv_buffer@
    }

    /// The outbound bytes not yet handed to the transport.
    pub closed spec fn sendq(self) -> Seq<u8> {
        self.send_buffer@
    }

    /// The packet registry's model.
    pub closed spec fn registry(self) -> PacketRegistryView {
        self.packet_registry@
    }

    pub closed spec fn wf(self) -> bool {
        &&& self.crypto_context.wf()
        &&& self.packet_registry.wf()
    }

    /// A fresh connection around a packet registry: connected, empty
    /// buffers, and the identity cipher of the pre-handshake phase.
    pub fn new(packet_registry: PacketRegistry) -> (r: Connection)
        requires
            packet_registry.wf(),
        ensures
            r.wf(),
            r.spec_state() == ConnectionState::Connected,
            r.recv() == Seq::<u8>::empty(),
            r.sendq() == Seq::<u8>::empty(),
            r.cipher() is Empty,
            r.registry() == packet_registry@,
    {
        let r = Connection {
            crypto_context: CryptoContext::Empty(EmptyCryptoContext::new()),
            state: ConnectionState::Connected,
            recv_buffer: Vec::new(),
            send_buffer: Vec::new(),
            packet_registry,
        };
        proof {
            assert(r.recv() =~= Seq::<u8>::empty());
            assert(r.sendq() =~= Seq::<u8>::empty());
        }
        r
    }

    /// The lifecycle state.
    pub fn state(&self) -> (r: ConnectionState)
        ensures
            r == self.spec_state(),
    {
        self.state
    }

    /// Feed bytes read from the transport into the receive buffer.
    pub fn receive(&mut self, chunk: &[u8])
        requires
            old(self).wf(),
        ensures
            final (self).wf(),
            final (self).recv() == old(self).recv() + chunk@,
            final (self).sendq() == old(self).sendq(),
            final (self).cipher() == old(self).cipher(),
            final (self).spec_state() == old(self).spec_state(),
            final (self).registry() == old(self).registry(),
    {
        append_bytes(&mut self.recv_buffer, chunk);
    }

    /// The outbound bytes waiting for the transport.
    pub fn outgoing(&self) -> (r: &Vec<u8>)
        ensures
            r@ == self.sendq(),
    {
        &self.send_buffer
    }

    /// Acknowledge that the transport accepted the first `n` outbound
    /// bytes: the rest of the queue moves to the front.
    pub fn mark_sent(&mut self, n: usize)
        requires
            old(self).wf(),
            n <= old(self).sendq().len(),
        ensures
            final (self).wf(),
            final (self).sendq() == old(self).sendq().skip(n as int),
            final (self).recv() == old(self).recv(),
            final (self).cipher() == old(self).cipher(),
            final (self).spec_state() == old(self).spec_state(),
            final (self).registry() == old(self).registry(),
    {
        drop_front(&mut self.send_buffer, n);
    }

    /// Record that the peer closed the byte stream: the connection is now
    /// disconnected, and the terminal error is handed back.
    pub fn on_end_of_stream(&mut self) -> (r: ConnectionError)
        requires
            old(self).wf(),
        ensures
            final (self).wf(),
            r == ConnectionError::SocketEndOfFile,
            final (self).spec_state() == ConnectionState::Disconnected,
            final (self).recv() == old(self).recv(),
            final (self).sendq() == old(self).sendq(),
            final (self).cipher() == old(self).cipher(),
            final (self).registry() == old(self).registry(),
    {
        self.state = ConnectionState::Disconnected;
        ConnectionError::SocketEndOfFile
    }

    /// Upgrade the cipher in place to the keyed stream cipher, keeping the
    /// given role. The cipher is never downgraded.
    pub fn set_crypto(&mut self, mode: XorCryptoMode, key: &Vec<i8>)
        requires
            old(self).wf(),
        ensures
            final (self).wf(),
            cipher_keyed(final (self).cipher(), key@, mode),
            final (self).recv() == old(self).recv(),
            final (self).sendq() == old(self).sendq(),
            final (self).spec_state() == old(self).spec_state(),
            final (self).registry() == old(self).registry(),
    {
        self.crypto_context = CryptoContext::Xor(XorCryptoContext::new(mode, key));
    }

    /// Upgrade the cipher in place to a keyed stream cipher in the server
    /// role, under a freshly generated key.
    pub fn init_crypto(&mut self) -> (r: Result<(), ConnectionError>)
        requires
            old(self).wf(),
        ensures
            final (self).wf(),
            r is Ok,
            exists|key: Seq<i8>|
                key.len() == 4 && cipher_keyed(final (self).cipher(), key, XorCryptoMode::Server),
            final (self).recv() == old(self).recv(),
            final (self).sendq() == old(self).sendq(),
            final (self).spec_state() == old(self).spec_state(),
            final (self).registry() == old(self).registry(),
    {
        let key = XorCryptoContext::generate_key();
        self.set_crypto(XorCryptoMode::Server, &key);
        proof {
            assert(key@.len() == 4 && cipher_keyed(self.cipher(), key@, XorCryptoMode::Server));
        }
        Ok(())
    }

    /// Serialize a packet into a frame appended to the send queue: a 4-byte
    /// total length, the 4-byte packet id, and the payload encrypted in
    /// place. The frame is queued, not written: the transport drains the
    /// queue through `outgoing` and `mark_sent`. On an error nothing
    /// changes.
    pub fn send(&mut self, packet: &Packet) -> (r: Result<(), ConnectionError>)
        requires
            old(self).wf(),
        ensures
            final (self).wf(),
            final (self).recv() == old(self).recv(),
            final (self).spec_state() == old(self).spec_state(),
            final (self).registry() == old(self).registry(),
            ({
                let res = spec_send_payload(old(self).registry(), packet@);
                match r {
                    Ok(()) => {
                        &&& res is Ok
                        &&& res->Ok_0.len() + FRAME_HEADER_LEN <= u32::MAX
                        &&& final (self).sendq() == old(self).sendq() + u32_be_bytes(
                            (res->Ok_0.len() + FRAME_HEADER_LEN) as u32,
                        ) + i32_be_bytes(packet@.spec_packet_id()) + old(
                            self,
                        ).cipher().spec_encrypt_bytes(res->Ok_0)
                        &&& old(self).cipher().advanced_by_encrypt(
                            final (self).cipher(),
                            res->Ok_0,
                        )
                    },
                    Err(e) => {
                        &&& *final (self) == *old(self)
                        &&& match res {
                            Ok(payload) => payload.len() + FRAME_HEADER_LEN > u32::MAX && e
                                == ConnectionError::SendError(CodecError::InvalidArgument),
                            Err(ce) => e == ConnectionError::SendError(ce),
                        }
                    },
                }
            }),
    {
        let mut payload: Vec<u8> = Vec::new();
        match packet.as_unknown() {
            Some(up) => {
                append_bytes(&mut payload, up.payload().as_slice());
                assert(payload@ =~= up.spec_payload());
            },
            None => {
                match self.packet_registry.encode(&mut payload, packet) {
                    Ok(()) => {
                        assert(payload@ =~= spec_send_payload(self.registry(), packet@)->Ok_0);
                    },
                    Err(e) => {
                        return Err(ConnectionError::SendError(e));
                    },
                }
            },
        }
        if payload.len() > (u32::MAX - FRAME_HEADER_LEN as u32) as usize {
            return Err(ConnectionError::SendError(CodecError::InvalidArgument));
        }
        let total = (payload.len() as u32) + (FRAME_HEADER_LEN as u32);
        match self.crypto_context.encrypt(&mut payload) {
            Ok(()) => {},
            Err(_) => {
                return Err(ConnectionError::SendError(CodecError::EncodeError));
            },
        }
        write_u32_be(&mut self.send_buffer, total);
        write_i32_be(&mut self.send_buffer, packet.packet_id());
        append_bytes(&mut self.send_buffer, payload.as_slice());
        proof {
            let res = spec_send_payload(old(self).registry(), packet@);
            assert(self.sendq() =~= old(self).sendq() + u32_be_bytes(
                (res->Ok_0.len() + FRAME_HEADER_LEN) as u32,
            ) + i32_be_bytes(packet@.spec_packet_id()) + old(self).cipher().spec_encrypt_bytes(
                res->Ok_0,
            ));
        }
        Ok(())
    }

    /// Attempt to parse one frame from the front of the receive buffer.
    /// With a complete, valid frame buffered: the frame's bytes leave the
    /// buffer, the payload is decrypted (advancing the cipher), and the
    /// packet registry decodes it — an unregistered id degrades to an
    /// `UnknownPacket` carrying the decrypted payload verbatim. An invalid
    /// length field, or a payload its codec rejects, fails; buffered bytes
    /// then stay put, and the caller disconnects.
    pub fn try_parse_read_buffer(&mut self) -> (r: ParseOutcome)
        requires
            old(self).wf(),
        ensures
            final (self).wf(),
            final (self).sendq() == old(self).sendq(),
            final (self).spec_state() == old(self).spec_state(),
            final (self).registry() == old(self).registry(),
            ({
                match spec_parse_frame(old(self).recv()) {
                    SpecFrame::Incomplete => r is Pending && *final (self) == *old(self),
                    SpecFrame::Invalid(length) => r == ParseOutcome::Failed(
                        ConnectionError::InvalidPacketSize(length as usize),
                    ) && *final (self) == *old(self),
                    SpecFrame::Frame { length, packet_id, payload } => {
                        let plain = old(self).cipher().spec_decrypt_bytes(payload);
                        &&& old(self).cipher().advanced_by_decrypt(final (self).cipher(), payload)
                        &&& match spec_decode_packet(old(self).registry(), packet_id, plain) {
                            Ok(Some((sp, k))) => r matches ParseOutcome::Packet(p) && p@ == sp
                                && final (self).recv() == old(self).recv().skip(length),
                            Ok(None) => r matches ParseOutcome::Packet(p) && p@
                                == SpecPacket::Unknown { packet_id, payload: plain } && final (
                            self).recv() == old(self).recv().skip(length),
                            Err(e) => r == ParseOutcome::Failed(ConnectionError::DecodeError(e))
                                && final (self).recv() == old(self).recv(),
                        }
                    },
                }
            }),
    {
        if self.recv_buffer.len() < FRAME_HEADER_LEN {
            return ParseOutcome::Pending;
        }
        let b0 = self.recv_buffer[0];
        let b1 = self.recv_buffer[1];
        let b2 = self.recv_buffer[2];
        let b3 = self.recv_buffer[3];
        let length_u32 = (b0 as u32) << 24 | (b1 as u32) << 16 | (b2 as u32) << 8 | (b3 as u32);
        assert(length_u32 == u32_from_be(old(self).recv()));
        let length = length_u32 as usize;
        if length < FRAME_HEADER_LEN || length > MAX_FRAME_LEN {
            return ParseOutcome::Failed(ConnectionError::InvalidPacketSize(length));
        }
        if self.recv_buffer.len() < length {
            return ParseOutcome::Pending;
        }
        let i0 = self.recv_buffer[4];
        let i1 = self.recv_buffer[5];
        let i2 = self.recv_buffer[6];
        let i3 = self.recv_buffer[7];
        let packet_id = #[verifier::truncate] (((i0 as u32) << 24 | (i1 as u32) << 16 | (
        i2 as u32) << 8 | (i3 as u32)) as i32);
        proof {
            assert(old(self).recv().skip(4)[0] == i0 && old(self).recv().skip(4)[1] == i1 && old(
                self,
            ).recv().skip(4)[2] == i2 && old(self).recv().skip(4)[3] == i3);
            assert(packet_id == i32_from_be(old(self).recv().skip(4)));
        }

        // Copy the payload out and decrypt it in place.
        let mut payload: Vec<u8> = Vec::new();
        let mut i: usize = FRAME_HEADER_LEN;
        while i < length
            invariant
                FRAME_HEADER_LEN <= i <= length,
                length <= self.recv_buffer@.len(),
                *self == *old(self),
                payload@ == self.recv_buffer@.subrange(FRAME_HEADER_LEN as int, i as int),
            decreases length - i,
        {
            let b = self.recv_buffer[i];
            payload.push(b);
            i = i + 1;
            assert(payload@ =~= self.recv_buffer@.subrange(FRAME_HEADER_LEN as int, i as int));
        }
        let ghost cipher_payload = payload@;
        match self.crypto_context.decrypt(&mut payload) {
            Ok(()) => {},
            Err(_) => {
                return ParseOutcome::Failed(ConnectionError::RecvError);
            },
        }
        let ghost plain = payload@;

        let mut reader = ByteReader::new(payload);
        let packet = match self.packet_registry.decode(&mut reader, packet_id) {
            Ok(Some(p)) => p,
            Ok(None) => Packet::Unknown(UnknownPacket::new(packet_id, reader.into_inner())),
            Err(e) => {
                return ParseOutcome::Failed(ConnectionError::DecodeError(e));
            },
        };

        // Compact: the frame's bytes leave the front of the buffer.
        drop_front(&mut self.recv_buffer, length);
        ParseOutcome::Packet(packet)
    }

    /// Produce the next item of the packet sequence. Once disconnected the
    /// sequence is exhausted and stays so. A parse failure is terminal: the
    /// connection moves to `Disconnected` and the error is the sequence's
    /// last item.
    pub fn poll_packet(&mut self) -> (r: PollOutcome)
        requires
            old(self).wf(),
        ensures
            final (self).wf(),
            final (self).sendq() == old(self).sendq(),
            final (self).registry() == old(self).registry(),
            old(self).spec_state() == ConnectionState::Disconnected ==> r is Closed && *final (
            self) == *old(self),
            old(self).spec_state() == ConnectionState::Connected ==> match spec_parse_frame(
                old(self).recv(),
            ) {
                SpecFrame::Incomplete => r is Pending && *final (self) == *old(self),
                SpecFrame::Invalid(length) => r == PollOutcome::Failed(
                    ConnectionError::InvalidPacketSize(length as usize),
                ) && final (self).spec_state() == ConnectionState::Disconnected && final (
                self).recv() == old(self).recv() && final (self).cipher() == old(self).cipher(),
                SpecFrame::Frame { length, packet_id, payload } => {
                    let plain = old(self).cipher().spec_decrypt_bytes(payload);
                    &&& old(self).cipher().advanced_by_decrypt(final (self).cipher(), payload)
                    &&& match spec_decode_packet(old(self).registry(), packet_id, plain) {
                        Ok(Some((sp, k))) => r matches PollOutcome::Packet(p) && p@ == sp && final (
                        self).recv() == old(self).recv().skip(length) && final (self).spec_state()
                            == ConnectionState::Connected,
                        Ok(None) => r matches PollOutcome::Packet(p) && p@ == SpecPacket::Unknown {
                            packet_id,
                            payload: plain,
                        } && final (self).recv() == old(self).recv().skip(length) && final (
                        self).spec_state() == ConnectionState::Connected,
                        Err(e) => r == PollOutcome::Failed(ConnectionError::DecodeError(e))
                            && final (self).recv() == old(self).recv() && final (
                        self).spec_state() == ConnectionState::Disconnected,
                    }
                },
            },
    {
        if matches!(self.state, ConnectionState::Disconnected) {
            return PollOutcome::Closed;
        }
        match self.try_parse_read_buffer() {
            ParseOutcome::Pending => PollOutcome::Pending,
            ParseOutcome::Packet(p) => PollOutcome::Packet(p),
            ParseOutcome::Failed(e) => {
                self.state = ConnectionState::Disconnected;
                PollOutcome::Failed(e)
            },
        }
    }
}

/// Frame assembly is insensitive to how the byte stream is chunked: feeding
/// two chunks one after the other leaves the same buffered bytes — and so
/// the same parse outcome — as feeding their concatenation at once.
pub proof fn lemma_receive_chunking(buffered: Seq<u8>, a: Seq<u8>, b: Seq<u8>)
    ensures
        (buffered + a) + b == buffered + (a + b),
        spec_parse_frame((buffered + a) + b) == spec_parse_frame(buffered + (a + b)),
{
    assert((buffered + a) + b =~= buffered + (a + b));
}

} // verus!
