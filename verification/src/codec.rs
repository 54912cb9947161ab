//! Incremental framing of MQTT packets out of a byte stream, and the
//! bounded writer that holds one serialized packet.
//!
//! The codec owns a fixed buffer and two indices `read <= write <= N`.
//! Callers feed raw bytes in with [`MqttCodec::feed`] and take complete
//! frames out with [`MqttCodec::next`]; all transport I/O stays outside.

use vstd::prelude::*;

use crate::errors::MqttCodecError;
use crate::packets::Packet;
use crate::varint::spec_parse_varint;
use crate::varint::VarintParse;

verus! {

/// What the bytes seen so far say about the next frame.
pub ghost enum FrameStatus {
    /// Too few bytes to know the frame length.
    NeedMore,
    /// The length prefix is malformed.
    Bad,
    /// The frame spans `total` bytes from the start of the window.
    Frame { total: int },
}

/// Reads the total frame length announced by a fixed header: one header
/// byte, the length prefix itself, and the remaining length it carries.
pub open spec fn spec_pkg_len(s: Seq<u8>) -> FrameStatus {
    if s.len() < 2 {
        FrameStatus::NeedMore
    } else {
        match spec_parse_varint(s, 1) {
            VarintParse::NeedMore => FrameStatus::NeedMore,
            VarintParse::Malformed => FrameStatus::Bad,
            VarintParse::Done { value, len } => FrameStatus::Frame { total: 1 + len + value },
        }
    }
}

/// Computes the total frame length from the buffered bytes: `Ok(Some(l))`
/// once the length prefix is complete, `Ok(None)` while bytes are missing,
/// `Err(())` on a malformed prefix.
pub fn get_pkg_len(buf: &[u8]) -> (r: Result<Option<usize>, ()>)
    ensures
        match r {
            Ok(Some(l)) => spec_pkg_len(buf@) == (FrameStatus::Frame { total: l as int }) && 2
                <= l,
            Ok(None) => spec_pkg_len(buf@) is NeedMore,
            Err(_) => spec_pkg_len(buf@) is Bad,
        },
{
    if buf.len() < 2 {
        return Ok(None);
    }
    match crate::varint::parse_varint(buf, 1) {
        Ok(Some((v, n))) => Ok(Some(1 + n + v as usize)),
        Ok(None) => Ok(None),
        Err(_) => Err(()),
    }
}

/// A bounded buffer that accumulates one serialized packet.
#[derive(Debug, Clone, Copy)]
pub struct PacketWriter<const N: usize> {
    buffer: [u8; N],
    write_index: usize,
}

impl<const N: usize> View for PacketWriter<N> {
    type V = Seq<u8>;

    /// The bytes written so far.
    closed spec fn view(&self) -> Seq<u8> {
        self.buffer@.take(self.write_index as int)
    }
}

impl<const N: usize> PacketWriter<N> {
    /// The writer never claims more bytes than it holds.
    pub closed spec fn wf(&self) -> bool {
        self.write_index <= N
    }

    pub fn new() -> (r: Self)
        ensures
            r.wf(),
            r@ == Seq::<u8>::empty(),
    {
        let r = PacketWriter { buffer: [0u8; N], write_index: 0 };
        proof {
            assert(r@ =~= Seq::<u8>::empty());
        }
        r
    }

    /// The bytes written so far.
    pub fn get_written_data(&self) -> (r: &[u8])
        requires
            self.wf(),
        ensures
            r@ == self@,
    {
        let r = &self.buffer[0..self.write_index];
        proof {
            assert(r@ =~= self@);
        }
        r
    }

    /// How many bytes have been written.
    pub fn len(&self) -> (r: usize)
        requires
            self.wf(),
        ensures
            r == self@.len(),
    {
        self.write_index
    }

    /// Appends `data`, which must fit the remaining space.
    pub fn write_slice(&mut self, data: &[u8])
        requires
            old(self).wf(),
            old(self)@.len() + data@.len() <= N,
        ensures
            final(self).wf(),
            final(self)@ == old(self)@ + data@,
    {
        proof {
            assert(self@ =~= old(self)@ + data@.take(0));
        }
        let mut i: usize = 0;
        while i < data.len()
            invariant
                self.wf(),
                i <= data@.len(),
                self.write_index == old(self)@.len() + i,
                old(self)@.len() + data@.len() <= N,
                self@ == old(self)@ + data@.take(i as int),
            decreases data@.len() - i,
        {
            let ghost prev_buf = self.buffer@;
            let ghost prev_view = self@;
            let ghost wi = self.write_index as int;
            self.buffer[self.write_index] = data[i];
            self.write_index = self.write_index + 1;
            proof {
                assert(self.buffer@ == prev_buf.update(wi, data@[i as int]));
                assert forall|k: int| 0 <= k < wi + 1 implies #[trigger] self.buffer@.take(
                    wi + 1,
                )[k] == (old(self)@ + data@.take(i as int + 1))[k] by {
                    if k < wi {
                        assert(self.buffer@[k] == prev_buf[k]);
                        assert(prev_buf.take(wi)[k] == prev_view[k]);
                    }
                }
                assert(self@ =~= old(self)@ + data@.take(i as int + 1));
            }
            i = i + 1;
        }
        proof {
            assert(data@.take(data@.len() as int) =~= data@);
            assert(self@ =~= old(self)@ + data@);
        }
    }
}

/// A writer never holds more bytes than its capacity.
pub proof fn lemma_packet_writer_len<const N: usize>(w: &PacketWriter<N>)
    requires
        w.wf(),
    ensures
        w@.len() <= N,
{
}

/// The framing decoder: a fixed buffer and the window `read..write` of
/// bytes not yet consumed.
pub struct MqttCodec<const N: usize> {
    buf: [u8; N],
    read: usize,
    write: usize,
}

impl<const N: usize> MqttCodec<N> {
    /// The indices stay ordered and inside the buffer.
    pub closed spec fn wf(&self) -> bool {
        self.read <= self.write <= N
    }

    /// The buffered bytes not yet consumed.
    pub closed spec fn contents(&self) -> Seq<u8> {
        self.buf@.subrange(self.read as int, self.write as int)
    }

    /// Free space left for [`Self::feed`].
    pub closed spec fn spec_free(&self) -> int {
        N - self.write
    }

    pub fn new() -> (r: Self)
        ensures
            r.wf(),
            r.contents() == Seq::<u8>::empty(),
            r.spec_free() == N,
    {
        let r = MqttCodec { buf: [0u8; N], read: 0, write: 0 };
        proof {
            assert(r.contents() =~= Seq::<u8>::empty());
        }
        r
    }

    /// How many bytes [`Self::feed`] can accept right now.
    pub fn free_space(&self) -> (r: usize)
        requires
            self.wf(),
        ensures
            r == self.spec_free(),
    {
        N - self.write
    }

    /// Takes as much of `data` as fits and returns how much was taken.
    pub fn feed(&mut self, data: &[u8]) -> (n: usize)
        requires
            old(self).wf(),
        ensures
            final(self).wf(),
            n == if data@.len() <= old(self).spec_free() {
                data@.len() as int
            } else {
                old(self).spec_free()
            },
            final(self).contents() == old(self).contents() + data@.take(n as int),
            final(self).spec_free() == old(self).spec_free() - n,
    {
        let space = N - self.write;
        let n = if data.len() <= space {
            data.len()
        } else {
            space
        };
        let mut i: usize = 0;
        while i < n
            invariant
                i <= n,
                self.write == old(self).write + i,
                n <= data@.len(),
                old(self).write + n <= N,
                self.read == old(self).read,
                self.wf(),
                self.buf@ == old(self).buf@.map(
                    |k: int, b: u8|
                        if old(self).write <= k < old(self).write + i {
                            data@[k - old(self).write]
                        } else {
                            b
                        },
                ),
            decreases n - i,
        {
            self.buf[self.write] = data[i];
            self.write = self.write + 1;
            proof {
                assert(self.buf@ =~= old(self).buf@.map(
                    |k: int, b: u8|
                        if old(self).write <= k < old(self).write + i + 1 {
                            data@[k - old(self).write]
                        } else {
                            b
                        },
                ));
            }
            i = i + 1;
        }
        proof {
            assert(self.contents() =~= old(self).contents() + data@.take(n as int));
        }
        n
    }

    /// Tries to cut one complete frame out of the buffered bytes.
    ///
    /// `Ok(Some(frame))` consumes the frame; `Ok(None)` means more bytes
    /// are needed (and resets the window when it is empty);
    /// `Err(InvalidLength)` means the length prefix is malformed or
    /// announces a frame that cannot fit the buffer, and consumes nothing.
    pub fn next(&mut self) -> (r: Result<Option<Vec<u8>>, MqttCodecError>)
        requires
            old(self).wf(),
        ensures
            final(self).wf(),
            match r {
                Ok(Some(frame)) => {
                    &&& spec_pkg_len(old(self).contents()) == (FrameStatus::Frame {
                        total: frame@.len() as int,
                    })
                    &&& frame@.len() < N
                    &&& frame@.len() <= old(self).contents().len()
                    &&& frame@ == old(self).contents().take(frame@.len() as int)
                    &&& final(self).contents() == old(self).contents().skip(
                        frame@.len() as int,
                    )
                },
                Ok(None) => {
                    &&& final(self).contents() == old(self).contents()
                    &&& (spec_pkg_len(old(self).contents()) is NeedMore || match spec_pkg_len(
                        old(self).contents(),
                    ) {
                        FrameStatus::Frame { total } => old(self).contents().len() < total
                            < N,
                        _ => false,
                    })
                    &&& old(self).contents().len() == 0 ==> final(self).spec_free() == N
                },
                Err(e) => {
                    &&& e == MqttCodecError::InvalidLength
                    &&& *final(self) == *old(self)
                    &&& (spec_pkg_len(old(self).contents()) is Bad || match spec_pkg_len(
                        old(self).contents(),
                    ) {
                        FrameStatus::Frame { total } => total >= N,
                        _ => false,
                    })
                },
            },
    {
        if self.read == self.write {
            self.read = 0;
            self.write = 0;
            proof {
                assert(old(self).contents() =~= Seq::<u8>::empty());
                assert(self.contents() =~= Seq::<u8>::empty());
            }
            return Ok(None);
        }
        let packet_len = {
            let window = &self.buf[self.read..self.write];
            proof {
                assert(window@ == self.contents());
            }
            match get_pkg_len(window) {
                Ok(Some(l)) => l,
                Ok(None) => {
                    return Ok(None);
                },
                Err(_) => {
                    return Err(MqttCodecError::InvalidLength);
                },
            }
        };
        if packet_len >= N {
            return Err(MqttCodecError::InvalidLength);
        }
        if self.write - self.read < packet_len {
            return Ok(None);
        }
        let mut frame: Vec<u8> = Vec::new();
        let mut i: usize = self.read;
        let end = self.read + packet_len;
        while i < end
            invariant
                self.read <= i <= end <= self.write <= N,
                self == old(self),
                frame@ == self.buf@.subrange(self.read as int, i as int),
            decreases end - i,
        {
            frame.push(self.buf[i]);
            proof {
                assert(frame@ =~= self.buf@.subrange(self.read as int, i as int + 1));
            }
            i = i + 1;
        }
        proof {
            assert(frame@ =~= old(self).contents().take(packet_len as int));
            assert(self.buf@.subrange(
                self.read + packet_len as int,
                self.write as int,
            ) =~= old(self).contents().skip(packet_len as int));
        }
        self.read = self.read + packet_len;
        Ok(Some(frame))
    }

    /// Serializes `packet` for the wire, refusing one whose wire form
    /// would not fit a buffer of this codec's size.
    pub fn write(&self, packet: &Packet) -> (r: Result<Vec<u8>, MqttCodecError>)
        requires
            packet@.wf(),
        ensures
            match r {
                Ok(v) => v@ == packet@.bytes() && v@.len() <= N,
                Err(e) => e == MqttCodecError::BufferTooSmall && packet@.bytes().len() > N,
            },
    {
        let bytes = crate::packets::encode_packet(packet);
        if bytes.len() > N {
            Err(MqttCodecError::BufferTooSmall)
        } else {
            Ok(bytes)
        }
    }
}

} // verus!
