//! A client-side packet reader: accumulates bytes in its buffer, probes
//! the fixed header for the full packet length, and hands out one packet
//! at a time. It sits beside the broker core and shares its length-prefix
//! logic; the broker itself does not use it.

use vstd::prelude::*;

use crate::codec::get_pkg_len;
use crate::codec::spec_pkg_len;
use crate::codec::FrameStatus;

verus! {

/// Errors the reader reports to its caller.
#[derive(Clone, Copy, Debug, PartialEq, Eq, Structural)]
pub enum ProtocolError {
    /// The length prefix is malformed, or the packet cannot fit the
    /// reader's buffer.
    MalformedPacket,
}

/// The reader: a buffer the caller fills, how much of it is filled, and
/// the packet length once the fixed header announces it.
pub struct PacketReader {
    buffer: Vec<u8>,
    read_bytes: usize,
    packet_length: Option<usize>,
}

impl PacketReader {
    /// The reader's buffer.
    pub closed spec fn spec_buffer(&self) -> Seq<u8> {
        self.buffer@
    }

    /// How many bytes of the buffer are filled.
    pub closed spec fn spec_read_bytes(&self) -> int {
        self.read_bytes as int
    }

    /// The packet length announced by the fixed header, once probed.
    pub closed spec fn spec_packet_length(&self) -> Option<int> {
        match self.packet_length {
            Some(l) => Some(l as int),
            None => None,
        }
    }

    pub fn new(buffer: Vec<u8>) -> (r: Self)
        ensures
            r.spec_buffer() == buffer@,
            r.spec_read_bytes() == 0,
            r.spec_packet_length() is None,
    {
        PacketReader { buffer, read_bytes: 0, packet_length: None }
    }

    /// Records that `count` more bytes of the buffer have been filled.
    pub fn commit(&mut self, count: usize)
        requires
            old(self).spec_read_bytes() + count <= usize::MAX,
        ensures
            final(self).spec_read_bytes() == old(self).spec_read_bytes() + count,
            final(self).spec_buffer() == old(self).spec_buffer(),
            final(self).spec_packet_length() == old(self).spec_packet_length(),
    {
        self.read_bytes = self.read_bytes + count;
    }

    /// Probes the filled bytes for the full packet length.
    fn probe_fixed_header(&mut self) -> (r: Result<(), ProtocolError>)
        requires
            old(self).spec_read_bytes() <= old(self).spec_buffer().len(),
        ensures
            final(self).spec_buffer() == old(self).spec_buffer(),
            final(self).spec_read_bytes() == old(self).spec_read_bytes(),
            match r {
                Ok(_) => final(self).spec_packet_length() == match spec_pkg_len(
                    old(self).spec_buffer().take(old(self).spec_read_bytes()),
                ) {
                    FrameStatus::Frame { total } => Some(total),
                    _ => None::<int>,
                },
                Err(e) => e == ProtocolError::MalformedPacket && spec_pkg_len(
                    old(self).spec_buffer().take(old(self).spec_read_bytes()),
                ) is Bad && final(self).spec_packet_length() is None,
            },
    {
        self.packet_length = None;
        let window = &self.buffer.as_slice()[0..self.read_bytes];
        proof {
            assert(window@ == self.spec_buffer().take(self.spec_read_bytes()));
        }
        match get_pkg_len(window) {
            Ok(Some(l)) => {
                self.packet_length = Some(l);
                Ok(())
            },
            Ok(None) => Ok(()),
            Err(_) => Err(ProtocolError::MalformedPacket),
        }
    }

    /// The range of the buffer the caller should fill next: the rest of
    /// the current packet once its length is known, one more byte until
    /// then. Fails when the packet cannot fit the buffer or its length
    /// prefix is malformed.
    pub fn receive_buffer(&mut self) -> (r: Result<(usize, usize), ProtocolError>)
        requires
            old(self).spec_read_bytes() <= old(self).spec_buffer().len(),
        ensures
            final(self).spec_buffer() == old(self).spec_buffer(),
            final(self).spec_read_bytes() == old(self).spec_read_bytes(),
            match r {
                Ok((start, end)) => {
                    &&& start == old(self).spec_read_bytes()
                    &&& end <= old(self).spec_buffer().len()
                    &&& match final(self).spec_packet_length() {
                        Some(l) => end == l,
                        None => end == start + 1 && start < old(self).spec_buffer().len(),
                    }
                },
                Err(e) => e == ProtocolError::MalformedPacket && match old(
                    self,
                ).spec_packet_length() {
                    Some(l) => l > old(self).spec_buffer().len(),
                    None => match spec_pkg_len(
                        old(self).spec_buffer().take(old(self).spec_read_bytes()),
                    ) {
                        FrameStatus::Bad => true,
                        FrameStatus::Frame { total } => total > old(self).spec_buffer().len(),
                        FrameStatus::NeedMore => old(self).spec_read_bytes() == old(
                            self,
                        ).spec_buffer().len(),
                    },
                },
            },
    {
        if self.packet_length.is_none() {
            if self.probe_fixed_header().is_err() {
                return Err(ProtocolError::MalformedPacket);
            }
        }
        let end = match &self.packet_length {
            Some(packet_length) => *packet_length,
            None => {
                if self.read_bytes >= self.buffer.len() {
                    return Err(ProtocolError::MalformedPacket);
                }
                self.read_bytes + 1
            },
        };
        if end <= self.buffer.len() {
            Ok((self.read_bytes, end))
        } else {
            Err(ProtocolError::MalformedPacket)
        }
    }

    /// Whether a whole packet has been filled in.
    pub fn packet_available(&self) -> (r: bool)
        ensures
            r == match self.spec_packet_length() {
                Some(l) => self.spec_read_bytes() >= l,
                None => false,
            },
    {
        match &self.packet_length {
            Some(length) => self.read_bytes >= *length,
            None => false,
        }
    }

    /// Forgets the filled bytes and the probed length.
    pub fn reset(&mut self)
        ensures
            final(self).spec_buffer() == old(self).spec_buffer(),
            final(self).spec_read_bytes() == 0,
            final(self).spec_packet_length() is None,
    {
        self.read_bytes = 0;
        self.packet_length = None;
    }

    /// Hands out the received packet's bytes and readies the reader for
    /// the next packet.
    pub fn received_packet(&mut self) -> (r: Result<Vec<u8>, ProtocolError>)
        requires
            match old(self).spec_packet_length() {
                Some(l) => l <= old(self).spec_buffer().len(),
                None => true,
            },
        ensures
            final(self).spec_buffer() == old(self).spec_buffer(),
            match r {
                Ok(v) => {
                    &&& old(self).spec_packet_length() matches Some(l) && v@ == old(
                        self,
                    ).spec_buffer().take(l)
                    &&& final(self).spec_read_bytes() == 0
                    &&& final(self).spec_packet_length() is None
                },
                Err(e) => e == ProtocolError::MalformedPacket && old(
                    self,
                ).spec_packet_length() is None,
            },
    {
        let packet_length = match &self.packet_length {
            Some(l) => *l,
            None => {
                return Err(ProtocolError::MalformedPacket);
            },
        };
        self.reset();
        let mut out: Vec<u8> = Vec::new();
        let mut i: usize = 0;
        while i < packet_length
            invariant
                i <= packet_length <= self.spec_buffer().len(),
                out@ == self.spec_buffer().take(i as int),
            decreases packet_length - i,
        {
            out.push(self.buffer[i]);
            proof {
                assert(out@ =~= self.spec_buffer().take(i as int + 1));
            }
            i = i + 1;
        }
        Ok(out)
    }
}

} // verus!
