//! The MQTT v5 control packets the broker understands, their wire encoding
//! and their parsing.
//!
//! The broker writes every packet with an empty property section; when it
//! parses a packet it accepts and skips any property section the peer sent.

use vstd::prelude::*;

use crate::errors::MqttCodecError;
use crate::varint::spec_encode_varint;
use crate::varint::spec_parse_varint;
use crate::varint::spec_parse_varint_at;
use crate::varint::varint_limit;
use crate::varint::VarintParse;

verus! {

/// Abstract value of a PUBLISH packet.
pub ghost struct SpecPublish {
    pub topic: Seq<u8>,
    pub payload: Seq<u8>,
    pub packet_identifier: Option<u16>,
    pub qos: u8,
    pub retain: bool,
    pub duplicate: bool,
}

/// Abstract value of the will carried by a CONNECT packet.
pub ghost struct SpecWill {
    pub topic: Seq<u8>,
    pub payload: Seq<u8>,
    pub qos: u8,
    pub retain: bool,
}

/// Abstract value of a CONNECT packet.
pub ghost struct SpecConnect {
    pub client_id: Seq<u8>,
    pub keep_alive: u16,
    pub clean_start: bool,
    pub will: Option<SpecWill>,
}

/// Abstract value of a control packet.
pub ghost enum SpecPacket {
    Connect(SpecConnect),
    Connack { session_present: bool, reason: u8 },
    Publish(SpecPublish),
    Puback { packet_identifier: u16, reason: u8 },
    Subscribe { packet_identifier: u16, filters: Seq<Seq<u8>> },
    Suback { packet_identifier: u16, reasons: Seq<u8> },
    Unsubscribe { packet_identifier: u16, filters: Seq<Seq<u8>> },
    Unsuback { packet_identifier: u16, reasons: Seq<u8> },
    Pingreq,
    Pingresp,
    Disconnect { reason: u8 },
}

/// A PUBLISH packet: the message routed by the distributor.
#[derive(Debug, Clone, PartialEq, Eq)]
pub struct PublishData {
    pub topic: Vec<u8>,
    pub payload: Vec<u8>,
    pub packet_identifier: Option<u16>,
    pub qos: u8,
    pub retain: bool,
    pub duplicate: bool,
}

/// The will carried by a CONNECT packet.
#[derive(Debug, Clone, PartialEq, Eq)]
pub struct WillData {
    pub topic: Vec<u8>,
    pub payload: Vec<u8>,
    pub qos: u8,
    pub retain: bool,
}

/// A CONNECT packet, reduced to what the broker reads from it.
#[derive(Debug, Clone, PartialEq, Eq)]
pub struct ConnectData {
    pub client_id: Vec<u8>,
    pub keep_alive: u16,
    pub clean_start: bool,
    pub will: Option<WillData>,
}

/// A control packet.
#[derive(Debug, Clone, PartialEq, Eq)]
pub enum Packet {
    Connect(ConnectData),
    Connack { session_present: bool, reason: u8 },
    Publish(PublishData),
    Puback { packet_identifier: u16, reason: u8 },
    Subscribe { packet_identifier: u16, filters: Vec<Vec<u8>> },
    Suback { packet_identifier: u16, reasons: Vec<u8> },
    Unsubscribe { packet_identifier: u16, filters: Vec<Vec<u8>> },
    Unsuback { packet_identifier: u16, reasons: Vec<u8> },
    Pingreq,
    Pingresp,
    Disconnect { reason: u8 },
}

impl View for PublishData {
    type V = SpecPublish;

    open spec fn view(&self) -> SpecPublish {
        SpecPublish {
            topic: self.topic@,
            payload: self.payload@,
            packet_identifier: self.packet_identifier,
            qos: self.qos,
            retain: self.retain,
            duplicate: self.duplicate,
        }
    }
}

impl View for WillData {
    type V = SpecWill;

    open spec fn view(&self) -> SpecWill {
        SpecWill {
            topic: self.topic@,
            payload: self.payload@,
            qos: self.qos,
            retain: self.retain,
        }
    }
}

impl View for ConnectData {
    type V = SpecConnect;

    open spec fn view(&self) -> SpecConnect {
        SpecConnect {
            client_id: self.client_id@,
            keep_alive: self.keep_alive,
            clean_start: self.clean_start,
            will: match self.will {
                Some(w) => Some(w@),
                None => None,
            },
        }
    }
}

/// The views of a sequence of byte vectors.
pub open spec fn views_of(v: Seq<Vec<u8>>) -> Seq<Seq<u8>> {
    v.map_values(|x: Vec<u8>| x@)
}

impl View for Packet {
    type V = SpecPacket;

    open spec fn view(&self) -> SpecPacket {
        match self {
            Packet::Connect(c) => SpecPacket::Connect(c@),
            Packet::Connack { session_present, reason } => SpecPacket::Connack {
                session_present: *session_present,
                reason: *reason,
            },
            Packet::Publish(p) => SpecPacket::Publish(p@),
            Packet::Puback { packet_identifier, reason } => SpecPacket::Puback {
                packet_identifier: *packet_identifier,
                reason: *reason,
            },
            Packet::Subscribe { packet_identifier, filters } => SpecPacket::Subscribe {
                packet_identifier: *packet_identifier,
                filters: views_of(filters@),
            },
            Packet::Suback { packet_identifier, reasons } => SpecPacket::Suback {
                packet_identifier: *packet_identifier,
                reasons: reasons@,
            },
            Packet::Unsubscribe { packet_identifier, filters } => SpecPacket::Unsubscribe {
                packet_identifier: *packet_identifier,
                filters: views_of(filters@),
            },
            Packet::Unsuback { packet_identifier, reasons } => SpecPacket::Unsuback {
                packet_identifier: *packet_identifier,
                reasons: reasons@,
            },
            Packet::Pingreq => SpecPacket::Pingreq,
            Packet::Pingresp => SpecPacket::Pingresp,
            Packet::Disconnect { reason } => SpecPacket::Disconnect { reason: *reason },
        }
    }
}

/// A two-byte big-endian length or identifier.
pub open spec fn spec_u16(v: int) -> Seq<u8> {
    seq![((v / 256) % 256) as u8, (v % 256) as u8]
}

/// A length-prefixed byte string.
pub open spec fn spec_str(s: Seq<u8>) -> Seq<u8> {
    spec_u16(s.len() as int) + s
}

/// The filter list of a SUBSCRIBE (each filter followed by an options
/// byte) or of an UNSUBSCRIBE (bare filters).
pub open spec fn spec_filters_bytes(filters: Seq<Seq<u8>>, with_options: bool) -> Seq<u8>
    decreases filters.len(),
{
    if filters.len() == 0 {
        seq![]
    } else {
        spec_str(filters[0]) + (if with_options {
            seq![0u8]
        } else {
            seq![]
        }) + spec_filters_bytes(filters.drop_first(), with_options)
    }
}

impl SpecWill {
    /// Field bounds that let the will be written on the wire.
    pub open spec fn wf(self) -> bool {
        &&& self.topic.len() < 0x10000
        &&& self.payload.len() < 0x10000
        &&& self.qos <= 2
    }

    /// CONNECT flag bits contributed by the will.
    pub open spec fn flag_bits(self) -> int {
        4 + (self.qos as int) * 8 + if self.retain {
            32int
        } else {
            0int
        }
    }

    /// The will's section of the CONNECT body: empty will properties, the
    /// topic, the payload.
    pub open spec fn bytes(self) -> Seq<u8> {
        seq![0u8] + spec_str(self.topic) + spec_str(self.payload)
    }
}

impl SpecConnect {
    pub open spec fn wf(self) -> bool {
        &&& self.client_id.len() < 0x10000
        &&& match self.will {
            Some(w) => w.wf(),
            None => true,
        }
    }

    /// The CONNECT flags byte.
    pub open spec fn flags(self) -> int {
        (if self.clean_start {
            2int
        } else {
            0int
        }) + match self.will {
            Some(w) => w.flag_bits(),
            None => 0int,
        }
    }
}

impl SpecPublish {
    pub open spec fn wf(self) -> bool {
        &&& self.topic.len() < 0x10000
        &&& self.qos <= 2
        &&& (self.packet_identifier is Some <==> self.qos > 0)
        &&& 3 + self.topic.len() + (if self.packet_identifier is Some {
            2int
        } else {
            0int
        }) + self.payload.len() < varint_limit()
    }

    /// The low nibble of the first header byte.
    pub open spec fn flags(self) -> int {
        (if self.duplicate {
            8int
        } else {
            0int
        }) + (self.qos as int) * 2 + (if self.retain {
            1int
        } else {
            0int
        })
    }
}

impl SpecPacket {
    /// The first byte of the fixed header.
    pub open spec fn first_byte(self) -> u8 {
        match self {
            SpecPacket::Connect(_) => 0x10,
            SpecPacket::Connack { .. } => 0x20,
            SpecPacket::Publish(p) => (0x30 + p.flags()) as u8,
            SpecPacket::Puback { .. } => 0x40,
            SpecPacket::Subscribe { .. } => 0x82,
            SpecPacket::Suback { .. } => 0x90,
            SpecPacket::Unsubscribe { .. } => 0xA2,
            SpecPacket::Unsuback { .. } => 0xB0,
            SpecPacket::Pingreq => 0xC0,
            SpecPacket::Pingresp => 0xD0,
            SpecPacket::Disconnect { .. } => 0xE0,
        }
    }

    /// The variable header and payload: everything after the fixed header.
    pub open spec fn body(self) -> Seq<u8> {
        match self {
            SpecPacket::Connect(c) => seq![0u8, 4, 0x4D, 0x51, 0x54, 0x54, 5]
                + seq![c.flags() as u8] + spec_u16(c.keep_alive as int) + seq![0u8] + spec_str(
                c.client_id,
            ) + match c.will {
                Some(w) => w.bytes(),
                None => seq![],
            },
            SpecPacket::Connack { session_present, reason } => seq![
                (if session_present {
                    1u8
                } else {
                    0u8
                }),
                reason,
                0u8,
            ],
            SpecPacket::Publish(p) => spec_str(p.topic) + (match p.packet_identifier {
                Some(pid) => spec_u16(pid as int),
                None => seq![],
            }) + seq![0u8] + p.payload,
            SpecPacket::Puback { packet_identifier, reason } => spec_u16(
                packet_identifier as int,
            ) + seq![reason, 0u8],
            SpecPacket::Subscribe { packet_identifier, filters } => spec_u16(
                packet_identifier as int,
            ) + seq![0u8] + spec_filters_bytes(filters, true),
            SpecPacket::Suback { packet_identifier, reasons } => spec_u16(
                packet_identifier as int,
            ) + seq![0u8] + reasons,
            SpecPacket::Unsubscribe { packet_identifier, filters } => spec_u16(
                packet_identifier as int,
            ) + seq![0u8] + spec_filters_bytes(filters, false),
            SpecPacket::Unsuback { packet_identifier, reasons } => spec_u16(
                packet_identifier as int,
            ) + seq![0u8] + reasons,
            SpecPacket::Pingreq => seq![],
            SpecPacket::Pingresp => seq![],
            SpecPacket::Disconnect { reason } => seq![reason, 0u8],
        }
    }

    /// What the packet must satisfy to be writable on the wire.
    pub open spec fn wf(self) -> bool {
        &&& match self {
            SpecPacket::Connect(c) => c.wf(),
            SpecPacket::Publish(p) => p.wf(),
            SpecPacket::Subscribe { filters, .. } => all_filters_wf(filters) && filters.len()
                > 0,
            SpecPacket::Unsubscribe { filters, .. } => all_filters_wf(filters) && filters.len()
                > 0,
            _ => true,
        }
        &&& self.body().len() < varint_limit()
    }

    /// The full wire form: fixed header byte, remaining length, body.
    pub open spec fn bytes(self) -> Seq<u8> {
        seq![self.first_byte()] + spec_encode_varint(self.body().len() as int) + self.body()
    }
}

/// Every filter short enough for its length prefix.
pub open spec fn all_filters_wf(filters: Seq<Seq<u8>>) -> bool {
    forall|i: int| 0 <= i < filters.len() ==> (#[trigger] filters[i]).len() < 0x10000
}

/// Extending the encoded filter list by one filter appends its bytes.
proof fn lemma_filters_bytes_take(filters: Seq<Seq<u8>>, i: int, with_options: bool)
    requires
        0 <= i < filters.len(),
    ensures
        spec_filters_bytes(filters.take(i + 1), with_options) == spec_filters_bytes(
            filters.take(i),
            with_options,
        ) + spec_str(filters[i]) + (if with_options {
            seq![0u8]
        } else {
            seq![]
        }),
    decreases i,
{
    let opts: Seq<u8> = if with_options {
        seq![0u8]
    } else {
        seq![]
    };
    if i == 0 {
        assert(filters.take(1).drop_first() =~= Seq::<Seq<u8>>::empty());
        assert(filters.take(1)[0] == filters[0]);
        assert(spec_filters_bytes(Seq::<Seq<u8>>::empty(), with_options) =~= Seq::<u8>::empty());
        assert(spec_filters_bytes(filters.take(1), with_options) =~= spec_str(filters[0])
            + opts);
        assert(spec_filters_bytes(filters.take(0), with_options) =~= Seq::<u8>::empty());
        assert(spec_filters_bytes(filters.take(1), with_options) =~= spec_filters_bytes(
            filters.take(0),
            with_options,
        ) + spec_str(filters[0]) + opts);
    } else {
        let d = filters.drop_first();
        assert(filters.take(i + 1).drop_first() =~= d.take(i));
        assert(filters.take(i).drop_first() =~= d.take(i - 1));
        lemma_filters_bytes_take(d, i - 1, with_options);
        assert(filters.take(i + 1)[0] == filters[0]);
        assert(filters.take(i)[0] == filters[0]);
        assert(d[i - 1] == filters[i]);
        assert(spec_filters_bytes(filters.take(i + 1), with_options) =~= spec_str(filters[0])
            + opts + spec_filters_bytes(d.take(i), with_options));
        assert(spec_filters_bytes(filters.take(i), with_options) =~= spec_str(filters[0]) + opts
            + spec_filters_bytes(d.take(i - 1), with_options));
        assert(spec_filters_bytes(filters.take(i + 1), with_options) =~= spec_filters_bytes(
            filters.take(i),
            with_options,
        ) + spec_str(filters[i]) + opts);
    }
}

/// Appends a two-byte big-endian value.
fn push_u16(out: &mut Vec<u8>, v: u16)
    ensures
        final(out)@ == old(out)@ + spec_u16(v as int),
{
    out.push((v / 256) as u8);
    out.push((v % 256) as u8);
    proof {
        assert(out@ =~= old(out)@ + spec_u16(v as int));
    }
}

/// Appends a length-prefixed byte string.
fn push_str(out: &mut Vec<u8>, s: &[u8])
    requires
        s@.len() < 0x10000,
    ensures
        final(out)@ == old(out)@ + spec_str(s@),
{
    push_u16(out, s.len() as u16);
    out.extend_from_slice(s);
    proof {
        assert(out@ =~= old(out)@ + spec_str(s@));
    }
}

/// Writes the variable header and payload of `p`.
fn encode_body(p: &Packet) -> (r: Vec<u8>)
    requires
        p@.wf(),
    ensures
        r@ == p@.body(),
{
    let mut out: Vec<u8> = Vec::new();
    match p {
        Packet::Connect(c) => {
            out.push(0);
            out.push(4);
            out.push(0x4D);
            out.push(0x51);
            out.push(0x54);
            out.push(0x54);
            out.push(5);
            let mut flags: u8 = 0;
            if c.clean_start {
                flags = 2;
            }
            if let Some(w) = &c.will {
                flags = flags + 4 + w.qos * 8 + if w.retain {
                    32
                } else {
                    0
                };
            }
            out.push(flags);
            push_u16(&mut out, c.keep_alive);
            out.push(0);
            push_str(&mut out, c.client_id.as_slice());
            if let Some(w) = &c.will {
                out.push(0);
                push_str(&mut out, w.topic.as_slice());
                push_str(&mut out, w.payload.as_slice());
            }
            proof {
                assert(out@ =~= p@.body());
            }
        },
        Packet::Connack { session_present, reason } => {
            out.push(if *session_present {
                1
            } else {
                0
            });
            out.push(*reason);
            out.push(0);
            proof {
                assert(out@ =~= p@.body());
            }
        },
        Packet::Publish(d) => {
            push_str(&mut out, d.topic.as_slice());
            if let Some(pid) = d.packet_identifier {
                push_u16(&mut out, pid);
            }
            out.push(0);
            out.extend_from_slice(d.payload.as_slice());
            proof {
                assert(out@ =~= p@.body());
            }
        },
        Packet::Puback { packet_identifier, reason } => {
            push_u16(&mut out, *packet_identifier);
            out.push(*reason);
            out.push(0);
            proof {
                assert(out@ =~= p@.body());
            }
        },
        Packet::Subscribe { packet_identifier, filters } => {
            push_u16(&mut out, *packet_identifier);
            out.push(0);
            push_filters(&mut out, filters, true);
            proof {
                assert(views_of(filters@).take(filters@.len() as int) =~= views_of(filters@));
                assert(out@ =~= p@.body());
            }
        },
        Packet::Suback { packet_identifier, reasons } => {
            push_u16(&mut out, *packet_identifier);
            out.push(0);
            out.extend_from_slice(reasons.as_slice());
            proof {
                assert(out@ =~= p@.body());
            }
        },
        Packet::Unsubscribe { packet_identifier, filters } => {
            push_u16(&mut out, *packet_identifier);
            out.push(0);
            push_filters(&mut out, filters, false);
            proof {
                assert(views_of(filters@).take(filters@.len() as int) =~= views_of(filters@));
                assert(out@ =~= p@.body());
            }
        },
        Packet::Unsuback { packet_identifier, reasons } => {
            push_u16(&mut out, *packet_identifier);
            out.push(0);
            out.extend_from_slice(reasons.as_slice());
            proof {
                assert(out@ =~= p@.body());
            }
        },
        Packet::Pingreq => {
            proof {
                assert(out@ =~= p@.body());
            }
        },
        Packet::Pingresp => {
            proof {
                assert(out@ =~= p@.body());
            }
        },
        Packet::Disconnect { reason } => {
            out.push(*reason);
            out.push(0);
            proof {
                assert(out@ =~= p@.body());
            }
        },
    }
    out
}

/// Appends the filter list, with one options byte per filter where the
/// packet kind asks for it.
fn push_filters(out: &mut Vec<u8>, filters: &Vec<Vec<u8>>, with_options: bool)
    requires
        all_filters_wf(views_of(filters@)),
    ensures
        final(out)@ == old(out)@ + spec_filters_bytes(
            views_of(filters@).take(filters@.len() as int),
            with_options,
        ),
{
    let ghost fs = views_of(filters@);
    let mut i: usize = 0;
    proof {
        assert(fs.take(0) =~= Seq::<Seq<u8>>::empty());
        assert(out@ =~= old(out)@ + spec_filters_bytes(fs.take(0), with_options));
    }
    while i < filters.len()
        invariant
            i <= filters@.len(),
            fs == views_of(filters@),
            all_filters_wf(fs),
            out@ == old(out)@ + spec_filters_bytes(fs.take(i as int), with_options),
        decreases filters@.len() - i,
    {
        proof {
            assert(fs[i as int] == filters@[i as int]@);
        }
        push_str(out, filters[i].as_slice());
        if with_options {
            out.push(0);
        }
        proof {
            lemma_filters_bytes_take(fs, i as int, with_options);
            assert(out@ =~= old(out)@ + spec_filters_bytes(fs.take(i as int + 1), with_options));
        }
        i = i + 1;
    }
}

/// Serializes `p` into its full wire form.
pub fn encode_packet(p: &Packet) -> (r: Vec<u8>)
    requires
        p@.wf(),
    ensures
        r@ == p@.bytes(),
{
    let mut body = encode_body(p);
    let mut out: Vec<u8> = Vec::new();
    out.push(first_byte(p));
    let mut lenv = crate::varint::encode_varint(body.len() as u32);
    out.append(&mut lenv);
    out.append(&mut body);
    proof {
        assert(out@ =~= p@.bytes());
    }
    out
}

/// Serializes one PUBLISH into its full wire form.
pub fn encode_publish(d: &PublishData) -> (r: Vec<u8>)
    requires
        (SpecPacket::Publish(d@)).wf(),
    ensures
        r@ == (SpecPacket::Publish(d@)).bytes(),
{
    let mut body: Vec<u8> = Vec::new();
    push_str(&mut body, d.topic.as_slice());
    if let Some(pid) = d.packet_identifier {
        push_u16(&mut body, pid);
    }
    body.push(0);
    body.extend_from_slice(d.payload.as_slice());
    proof {
        assert(body@ =~= (SpecPacket::Publish(d@)).body());
    }
    let mut out: Vec<u8> = Vec::new();
    out.push(
        0x30 + (if d.duplicate {
            8
        } else {
            0
        }) + d.qos * 2 + (if d.retain {
            1
        } else {
            0
        }),
    );
    let mut lenv = crate::varint::encode_varint(body.len() as u32);
    out.append(&mut lenv);
    out.append(&mut body);
    proof {
        assert(out@ =~= (SpecPacket::Publish(d@)).bytes());
    }
    out
}

/// The first byte of the fixed header of `p`.
fn first_byte(p: &Packet) -> (r: u8)
    requires
        p@.wf(),
    ensures
        r == p@.first_byte(),
{
    match p {
        Packet::Connect(_) => 0x10,
        Packet::Connack { .. } => 0x20,
        Packet::Publish(d) => 0x30 + (if d.duplicate {
            8
        } else {
            0
        }) + d.qos * 2 + (if d.retain {
            1
        } else {
            0
        }),
        Packet::Puback { .. } => 0x40,
        Packet::Subscribe { .. } => 0x82,
        Packet::Suback { .. } => 0x90,
        Packet::Unsubscribe { .. } => 0xA2,
        Packet::Unsuback { .. } => 0xB0,
        Packet::Pingreq => 0xC0,
        Packet::Pingresp => 0xD0,
        Packet::Disconnect { .. } => 0xE0,
    }
}

/// A two-byte big-endian value read at `i`.
pub open spec fn spec_u16_at(s: Seq<u8>, i: int) -> int {
    (s[i] as int) * 256 + (s[i + 1] as int)
}

/// Reads a length-prefixed byte string at `i`: the content and the index
/// after it.
pub open spec fn spec_parse_str(s: Seq<u8>, i: int) -> Option<(Seq<u8>, int)> {
    if i < 0 || i + 2 > s.len() {
        None
    } else {
        let l = spec_u16_at(s, i);
        if i + 2 + l > s.len() {
            None
        } else {
            Some((s.subrange(i + 2, i + 2 + l), i + 2 + l))
        }
    }
}

/// Skips a property section starting at `i`: the index after it.
pub open spec fn spec_skip_props(s: Seq<u8>, i: int) -> Option<int> {
    match spec_parse_varint(s, i) {
        VarintParse::Done { value, len } => if i + len + value <= s.len() {
            Some(i + len + value)
        } else {
            None
        },
        _ => None,
    }
}

/// Reads the filter list that fills `s` from `i` to the end.
pub open spec fn spec_parse_filters(s: Seq<u8>, i: int, with_options: bool) -> Option<
    Seq<Seq<u8>>,
>
    decreases s.len() - i,
{
    if i == s.len() {
        Some(seq![])
    } else {
        match spec_parse_str(s, i) {
            None => None,
            Some((f, j)) => {
                let j2 = if with_options {
                    j + 1
                } else {
                    j
                };
                if j2 > s.len() {
                    None
                } else {
                    match spec_parse_filters(s, j2, with_options) {
                        None => None,
                        Some(rest) => Some(seq![f] + rest),
                    }
                }
            },
        }
    }
}

/// Reads the will section of a CONNECT body when the will flag is set.
pub open spec fn spec_parse_will(body: Seq<u8>, i: int, flags: int) -> Option<
    (Option<SpecWill>, int),
> {
    if flags / 4 % 2 == 0 {
        if flags / 8 % 4 == 0 && flags / 32 % 2 == 0 {
            Some((None, i))
        } else {
            None
        }
    } else if flags / 8 % 4 > 2 {
        None
    } else {
        match spec_skip_props(body, i) {
            None => None,
            Some(i1) => match spec_parse_str(body, i1) {
                None => None,
                Some((wt, i2)) => match spec_parse_str(body, i2) {
                    None => None,
                    Some((wp, i3)) => Some(
                        (
                            Some(
                                SpecWill {
                                    topic: wt,
                                    payload: wp,
                                    qos: (flags / 8 % 4) as u8,
                                    retain: flags / 32 % 2 == 1,
                                },
                            ),
                            i3,
                        ),
                    ),
                },
            },
        }
    }
}

/// Skips the user name and password fields named by the CONNECT flags.
pub open spec fn spec_skip_user_pass(body: Seq<u8>, i: int, flags: int) -> Option<int> {
    let after_user = if flags / 128 % 2 == 1 {
        match spec_parse_str(body, i) {
            None => None,
            Some((_, j)) => Some(j),
        }
    } else {
        Some(i)
    };
    match after_user {
        None => None,
        Some(j) => if flags / 64 % 2 == 1 {
            match spec_parse_str(body, j) {
                None => None,
                Some((_, k)) => Some(k),
            }
        } else {
            Some(j)
        },
    }
}

/// Reads a CONNECT body.
pub open spec fn spec_parse_connect(body: Seq<u8>) -> Option<SpecPacket> {
    if body.len() < 11 {
        None
    } else if body.subrange(0, 7) != seq![0u8, 4u8, 0x4Du8, 0x51u8, 0x54u8, 0x54u8, 5u8] {
        None
    } else {
        let flags = body[7] as int;
        if flags % 2 == 1 {
            None
        } else {
            match spec_skip_props(body, 10) {
                None => None,
                Some(i1) => match spec_parse_str(body, i1) {
                    None => None,
                    Some((cid, i2)) => match spec_parse_will(body, i2, flags) {
                        None => None,
                        Some((will, i3)) => match spec_skip_user_pass(body, i3, flags) {
                            None => None,
                            Some(i4) => if i4 == body.len() {
                                Some(
                                    SpecPacket::Connect(
                                        SpecConnect {
                                            client_id: cid,
                                            keep_alive: spec_u16_at(body, 8) as u16,
                                            clean_start: flags / 2 % 2 == 1,
                                            will,
                                        },
                                    ),
                                )
                            } else {
                                None
                            },
                        },
                    },
                },
            }
        }
    }
}

/// Reads a PUBLISH body under the fixed-header flag nibble.
pub open spec fn spec_parse_publish(flags: int, body: Seq<u8>) -> Option<SpecPacket> {
    let qos = flags / 2 % 4;
    if qos > 2 {
        None
    } else {
        match spec_parse_str(body, 0) {
            None => None,
            Some((topic, i1)) => {
                let pid_end = if qos > 0 {
                    i1 + 2
                } else {
                    i1
                };
                if pid_end > body.len() {
                    None
                } else {
                    match spec_skip_props(body, pid_end) {
                        None => None,
                        Some(i2) => Some(
                            SpecPacket::Publish(
                                SpecPublish {
                                    topic,
                                    payload: body.subrange(i2, body.len() as int),
                                    packet_identifier: if qos > 0 {
                                        Some(spec_u16_at(body, i1) as u16)
                                    } else {
                                        None
                                    },
                                    qos: qos as u8,
                                    retain: flags % 2 == 1,
                                    duplicate: flags / 8 % 2 == 1,
                                },
                            ),
                        ),
                    }
                }
            },
        }
    }
}

/// Reads the body of a packet whose fixed header starts with `first`.
pub open spec fn spec_parse_body(first: u8, body: Seq<u8>) -> Option<SpecPacket> {
    let kind = first as int / 16;
    let flags = first as int % 16;
    if kind == 1 && flags == 0 {
        spec_parse_connect(body)
    } else if kind == 2 && flags == 0 {
        if body.len() >= 3 && body[0] as int <= 1 && spec_skip_props(body, 2) == Some(
            body.len() as int,
        ) {
            Some(SpecPacket::Connack { session_present: body[0] as int == 1, reason: body[1] })
        } else {
            None
        }
    } else if kind == 3 {
        spec_parse_publish(flags, body)
    } else if kind == 4 && flags == 0 {
        if body.len() == 2 {
            Some(SpecPacket::Puback { packet_identifier: spec_u16_at(body, 0) as u16, reason: 0 })
        } else if body.len() == 3 {
            Some(
                SpecPacket::Puback {
                    packet_identifier: spec_u16_at(body, 0) as u16,
                    reason: body[2],
                },
            )
        } else if body.len() > 3 && spec_skip_props(body, 3) == Some(body.len() as int) {
            Some(
                SpecPacket::Puback {
                    packet_identifier: spec_u16_at(body, 0) as u16,
                    reason: body[2],
                },
            )
        } else {
            None
        }
    } else if kind == 8 && flags == 2 {
        if body.len() < 2 {
            None
        } else {
            match spec_skip_props(body, 2) {
                None => None,
                Some(i) => match spec_parse_filters(body, i, true) {
                    None => None,
                    Some(fs) => if fs.len() > 0 {
                        Some(
                            SpecPacket::Subscribe {
                                packet_identifier: spec_u16_at(body, 0) as u16,
                                filters: fs,
                            },
                        )
                    } else {
                        None
                    },
                },
            }
        }
    } else if kind == 9 && flags == 0 {
        if body.len() < 2 {
            None
        } else {
            match spec_skip_props(body, 2) {
                None => None,
                Some(i) => Some(
                    SpecPacket::Suback {
                        packet_identifier: spec_u16_at(body, 0) as u16,
                        reasons: body.subrange(i, body.len() as int),
                    },
                ),
            }
        }
    } else if kind == 10 && flags == 2 {
        if body.len() < 2 {
            None
        } else {
            match spec_skip_props(body, 2) {
                None => None,
                Some(i) => match spec_parse_filters(body, i, false) {
                    None => None,
                    Some(fs) => if fs.len() > 0 {
                        Some(
                            SpecPacket::Unsubscribe {
                                packet_identifier: spec_u16_at(body, 0) as u16,
                                filters: fs,
                            },
                        )
                    } else {
                        None
                    },
                },
            }
        }
    } else if kind == 11 && flags == 0 {
        if body.len() < 2 {
            None
        } else {
            match spec_skip_props(body, 2) {
                None => None,
                Some(i) => Some(
                    SpecPacket::Unsuback {
                        packet_identifier: spec_u16_at(body, 0) as u16,
                        reasons: body.subrange(i, body.len() as int),
                    },
                ),
            }
        }
    } else if kind == 12 && flags == 0 {
        if body.len() == 0 {
            Some(SpecPacket::Pingreq)
        } else {
            None
        }
    } else if kind == 13 && flags == 0 {
        if body.len() == 0 {
            Some(SpecPacket::Pingresp)
        } else {
            None
        }
    } else if kind == 14 && flags == 0 {
        if body.len() == 0 {
            Some(SpecPacket::Disconnect { reason: 0 })
        } else if body.len() == 1 {
            Some(SpecPacket::Disconnect { reason: body[0] })
        } else if spec_skip_props(body, 1) == Some(body.len() as int) {
            Some(SpecPacket::Disconnect { reason: body[0] })
        } else {
            None
        }
    } else {
        None
    }
}

/// Reads one complete packet: `s` must be exactly one frame.
pub open spec fn spec_parse_packet(s: Seq<u8>) -> Option<SpecPacket> {
    if s.len() < 2 {
        None
    } else {
        match spec_parse_varint(s, 1) {
            VarintParse::Done { value, len } => if s.len() == 1 + len + value {
                spec_parse_body(s[0], s.subrange(1 + len, s.len() as int))
            } else {
                None
            },
            _ => None,
        }
    }
}

/// A value read as a variable-length integer lies inside the sequence.
proof fn lemma_varint_consumes(s: Seq<u8>, i: int, depth: int, v: int, n: int)
    requires
        0 <= depth,
        spec_parse_varint_at(s, i, depth) == (VarintParse::Done { value: v, len: n }),
    ensures
        0 <= i,
        i + n <= s.len(),
        n >= 1,
    decreases depth,
{
    if s[i] < 0x80 {
    } else {
        match spec_parse_varint_at(s, i + 1, depth - 1) {
            VarintParse::Done { value, len } => {
                lemma_varint_consumes(s, i + 1, depth - 1, value, len);
            },
            _ => {},
        }
    }
}

/// Copies `buf[a..b]` out.
fn copy_range(buf: &[u8], a: usize, b: usize) -> (r: Vec<u8>)
    requires
        a <= b <= buf@.len(),
    ensures
        r@ == buf@.subrange(a as int, b as int),
{
    let mut r: Vec<u8> = Vec::new();
    let mut i: usize = a;
    while i < b
        invariant
            a <= i <= b <= buf@.len(),
            r@ == buf@.subrange(a as int, i as int),
        decreases b - i,
    {
        r.push(buf[i]);
        proof {
            assert(r@ =~= buf@.subrange(a as int, i as int + 1));
        }
        i = i + 1;
    }
    r
}

/// Reads a length-prefixed byte string at `i`.
fn parse_str(buf: &[u8], i: usize) -> (r: Option<(Vec<u8>, usize)>)
    ensures
        match r {
            Some((content, j)) => spec_parse_str(buf@, i as int) == Some((content@, j as int))
                && i < j <= buf@.len() && content@.len() < 0x10000,
            None => spec_parse_str(buf@, i as int) is None,
        },
{
    if buf.len() < 2 || i > buf.len() - 2 {
        return None;
    }
    let l = (buf[i] as usize) * 256 + (buf[i + 1] as usize);
    if l > buf.len() - i - 2 {
        return None;
    }
    let content = copy_range(buf, i + 2, i + 2 + l);
    Some((content, i + 2 + l))
}

/// Skips a property section starting at `i`.
fn skip_props(buf: &[u8], i: usize) -> (r: Option<usize>)
    ensures
        match r {
            Some(j) => spec_skip_props(buf@, i as int) == Some(j as int) && i < j <= buf@.len(),
            None => spec_skip_props(buf@, i as int) is None,
        },
{
    match crate::varint::parse_varint(buf, i) {
        Ok(Some((v, n))) => {
            let blen = buf.len();
            proof {
                lemma_varint_consumes(buf@, i as int, 4, v as int, n as int);
            }
            let after = i + n;
            if v as usize <= buf.len() - after {
                Some(after + v as usize)
            } else {
                None
            }
        },
        _ => None,
    }
}

/// Reads the filter list that fills `buf` from `i` to the end.
fn parse_filters(buf: &[u8], i: usize, with_options: bool) -> (r: Option<Vec<Vec<u8>>>)
    requires
        i <= buf@.len(),
    ensures
        match r {
            Some(fs) => spec_parse_filters(buf@, i as int, with_options) == Some(views_of(fs@))
                && all_filters_wf(views_of(fs@)),
            None => spec_parse_filters(buf@, i as int, with_options) is None,
        },
    decreases buf@.len() - i,
{
    if i == buf.len() {
        let fs: Vec<Vec<u8>> = Vec::new();
        proof {
            assert(views_of(fs@) =~= Seq::<Seq<u8>>::empty());
        }
        return Some(fs);
    }
    match parse_str(buf, i) {
        None => None,
        Some((f, j)) => {
            if with_options && j == buf.len() {
                return None;
            }
            let j2 = if with_options {
                j + 1
            } else {
                j
            };
            match parse_filters(buf, j2, with_options) {
                None => None,
                Some(mut rest) => {
                    let ghost rest_views = views_of(rest@);
                    rest.insert(0, f);
                    proof {
                        assert(views_of(rest@) =~= seq![f@] + rest_views);
                    }
                    Some(rest)
                },
            }
        },
    }
}

/// Whether `body` opens with the MQTT v5 CONNECT preamble.
fn check_connect_magic(body: &[u8]) -> (r: bool)
    requires
        body@.len() >= 7,
    ensures
        r == (body@.subrange(0, 7) == seq![0u8, 4u8, 0x4Du8, 0x51u8, 0x54u8, 0x54u8, 5u8]),
{
    let r = body[0] == 0 && body[1] == 4 && body[2] == 0x4D && body[3] == 0x51 && body[4] == 0x54
        && body[5] == 0x54 && body[6] == 5;
    proof {
        let m = seq![0u8, 4u8, 0x4Du8, 0x51u8, 0x54u8, 0x54u8, 5u8];
        let sub = body@.subrange(0, 7);
        assert(sub[0] == body@[0] && sub[1] == body@[1] && sub[2] == body@[2] && sub[3]
            == body@[3] && sub[4] == body@[4] && sub[5] == body@[5] && sub[6] == body@[6]);
        if r {
            assert(sub =~= m);
        } else {
            if sub == m {
                assert(body@[0] == 0 && body@[1] == 4 && body@[2] == 0x4D && body@[3] == 0x51
                    && body@[4] == 0x54 && body@[5] == 0x54 && body@[6] == 5);
            }
        }
    }
    r
}

/// Reads a CONNECT body.
fn parse_connect(body: &[u8]) -> (r: Option<ConnectData>)
    ensures
        match r {
            Some(c) => spec_parse_connect(body@) == Some(SpecPacket::Connect(c@)) && c@.wf(),
            None => spec_parse_connect(body@) is None,
        },
{
    if body.len() < 11 {
        return None;
    }
    if !check_connect_magic(body) {
        return None;
    }
    let flags = body[7];
    if flags % 2 == 1 {
        return None;
    }
    let keep_alive: u16 = (body[8] as u16) * 256 + (body[9] as u16);
    let i1 = match skip_props(body, 10) {
        None => {
            return None;
        },
        Some(i) => i,
    };
    let (client_id, i2) = match parse_str(body, i1) {
        None => {
            return None;
        },
        Some(x) => x,
    };
    let has_will = flags / 4 % 2 == 1;
    let will_qos = flags / 8 % 4;
    let will_retain = flags / 32 % 2 == 1;
    let (will, i3): (Option<WillData>, usize) = if !has_will {
        if will_qos != 0 || will_retain {
            return None;
        }
        (None, i2)
    } else {
        if will_qos > 2 {
            return None;
        }
        let iw = match skip_props(body, i2) {
            None => {
                return None;
            },
            Some(i) => i,
        };
        let (wt, iw2) = match parse_str(body, iw) {
            None => {
                return None;
            },
            Some(x) => x,
        };
        let (wp, iw3) = match parse_str(body, iw2) {
            None => {
                return None;
            },
            Some(x) => x,
        };
        (Some(WillData { topic: wt, payload: wp, qos: will_qos, retain: will_retain }), iw3)
    };
    let i4 = if flags / 128 % 2 == 1 {
        match parse_str(body, i3) {
            None => {
                return None;
            },
            Some((_, j)) => j,
        }
    } else {
        i3
    };
    let i5 = if flags / 64 % 2 == 1 {
        match parse_str(body, i4) {
            None => {
                return None;
            },
            Some((_, j)) => j,
        }
    } else {
        i4
    };
    if i5 != body.len() {
        return None;
    }
    Some(ConnectData { client_id, keep_alive, clean_start: flags / 2 % 2 == 1, will })
}

/// Reads a PUBLISH body under the fixed-header flag nibble.
fn parse_publish(flags: u8, body: &[u8]) -> (r: Option<PublishData>)
    requires
        flags < 16,
        body@.len() < varint_limit(),
    ensures
        match r {
            Some(d) => spec_parse_publish(flags as int, body@) == Some(SpecPacket::Publish(d@))
                && d@.wf(),
            None => spec_parse_publish(flags as int, body@) is None,
        },
{
    let qos = flags / 2 % 4;
    if qos > 2 {
        return None;
    }
    let (topic, i1) = match parse_str(body, 0) {
        None => {
            return None;
        },
        Some(x) => x,
    };
    let packet_identifier: Option<u16> = if qos > 0 {
        if i1 > body.len() - 2 {
            return None;
        }
        Some((body[i1] as u16) * 256 + (body[i1 + 1] as u16))
    } else {
        None
    };
    let pid_end = if qos > 0 {
        i1 + 2
    } else {
        i1
    };
    let i2 = match skip_props(body, pid_end) {
        None => {
            return None;
        },
        Some(i) => i,
    };
    let payload = copy_range(body, i2, body.len());
    Some(
        PublishData {
            topic,
            payload,
            packet_identifier,
            qos,
            retain: flags % 2 == 1,
            duplicate: flags / 8 % 2 == 1,
        },
    )
}

/// Reads the packet identifier and skips the property section that every
/// SUBSCRIBE, SUBACK, UNSUBSCRIBE and UNSUBACK body opens with.
fn parse_pid_props(body: &[u8]) -> (r: Option<(u16, usize)>)
    ensures
        match r {
            Some((pid, i)) => body@.len() >= 2 && spec_skip_props(body@, 2) == Some(i as int)
                && pid as int == spec_u16_at(body@, 0) && 2 < i <= body@.len(),
            None => body@.len() < 2 || spec_skip_props(body@, 2) is None,
        },
{
    if body.len() < 2 {
        return None;
    }
    let pid: u16 = (body[0] as u16) * 256 + (body[1] as u16);
    match skip_props(body, 2) {
        None => None,
        Some(i) => Some((pid, i)),
    }
}

/// Reads a CONNACK body.
fn parse_connack_body(body: &[u8]) -> (r: Option<Packet>)
    ensures
        match r {
            Some(p) => spec_parse_body(0x20, body@) == Some(p@) && p@.wf(),
            None => spec_parse_body(0x20, body@) is None,
        },
{
    if body.len() < 3 || body[0] > 1 {
        return None;
    }
    match skip_props(body, 2) {
        Some(j) if j == body.len() => Some(
            Packet::Connack { session_present: body[0] == 1, reason: body[1] },
        ),
        _ => None,
    }
}

/// Reads a PUBACK body.
fn parse_puback_body(body: &[u8]) -> (r: Option<Packet>)
    ensures
        match r {
            Some(p) => spec_parse_body(0x40, body@) == Some(p@) && p@.wf(),
            None => spec_parse_body(0x40, body@) is None,
        },
{
    if body.len() < 2 {
        return None;
    }
    let packet_identifier: u16 = (body[0] as u16) * 256 + (body[1] as u16);
    if body.len() == 2 {
        Some(Packet::Puback { packet_identifier, reason: 0 })
    } else if body.len() == 3 {
        Some(Packet::Puback { packet_identifier, reason: body[2] })
    } else {
        match skip_props(body, 3) {
            Some(j) if j == body.len() => Some(
                Packet::Puback { packet_identifier, reason: body[2] },
            ),
            _ => None,
        }
    }
}

/// Reads a SUBSCRIBE or UNSUBSCRIBE body, depending on `with_options`.
fn parse_sub_body(body: &[u8], with_options: bool) -> (r: Option<Packet>)
    requires
        body@.len() < varint_limit(),
    ensures
        match r {
            Some(p) => spec_parse_body(
                if with_options {
                    0x82
                } else {
                    0xA2
                },
                body@,
            ) == Some(p@) && p@.wf(),
            None => spec_parse_body(
                if with_options {
                    0x82
                } else {
                    0xA2
                },
                body@,
            ) is None,
        },
{
    let (packet_identifier, i) = match parse_pid_props(body) {
        None => {
            return None;
        },
        Some(x) => x,
    };
    match parse_filters(body, i, with_options) {
        Some(fs) => {
            if fs.len() == 0 {
                return None;
            }
            proof {
                lemma_filters_parse_bytes(body@, i as int, with_options, views_of(fs@));
            }
            if with_options {
                Some(Packet::Subscribe { packet_identifier, filters: fs })
            } else {
                Some(Packet::Unsubscribe { packet_identifier, filters: fs })
            }
        },
        None => None,
    }
}

/// Reads a SUBACK or UNSUBACK body, depending on `acks_subscribe`.
fn parse_ack_list_body(body: &[u8], acks_subscribe: bool) -> (r: Option<Packet>)
    requires
        body@.len() < varint_limit(),
    ensures
        match r {
            Some(p) => spec_parse_body(
                if acks_subscribe {
                    0x90
                } else {
                    0xB0
                },
                body@,
            ) == Some(p@) && p@.wf(),
            None => spec_parse_body(
                if acks_subscribe {
                    0x90
                } else {
                    0xB0
                },
                body@,
            ) is None,
        },
{
    let (packet_identifier, i) = match parse_pid_props(body) {
        None => {
            return None;
        },
        Some(x) => x,
    };
    let reasons = copy_range(body, i, body.len());
    if acks_subscribe {
        Some(Packet::Suback { packet_identifier, reasons })
    } else {
        Some(Packet::Unsuback { packet_identifier, reasons })
    }
}

/// Reads a DISCONNECT body.
fn parse_disconnect_body(body: &[u8]) -> (r: Option<Packet>)
    ensures
        match r {
            Some(p) => spec_parse_body(0xE0, body@) == Some(p@) && p@.wf(),
            None => spec_parse_body(0xE0, body@) is None,
        },
{
    if body.len() == 0 {
        Some(Packet::Disconnect { reason: 0 })
    } else if body.len() == 1 {
        Some(Packet::Disconnect { reason: body[0] })
    } else {
        match skip_props(body, 1) {
            Some(j) if j == body.len() => Some(Packet::Disconnect { reason: body[0] }),
            _ => None,
        }
    }
}

/// Parses one complete frame as an MQTT v5 packet.
pub fn parse_packet(buf: &[u8]) -> (r: Result<Packet, MqttCodecError>)
    ensures
        match r {
            Ok(p) => spec_parse_packet(buf@) == Some(p@) && p@.wf(),
            Err(e) => spec_parse_packet(buf@) is None && e == MqttCodecError::Invalid,
        },
{
    if buf.len() < 2 {
        return Err(MqttCodecError::Invalid);
    }
    let (rem, vlen) = match crate::varint::parse_varint(buf, 1) {
        Ok(Some(x)) => x,
        _ => {
            return Err(MqttCodecError::Invalid);
        },
    };
    proof {
        lemma_varint_consumes(buf@, 1, 4, rem as int, vlen as int);
    }
    if buf.len() - 1 - vlen != rem as usize {
        return Err(MqttCodecError::Invalid);
    }
    let body = copy_range(buf, 1 + vlen, buf.len());
    let first = buf[0];
    let kind = first / 16;
    let flags = first % 16;
    let ghost bodyv = buf@.subrange(1 + vlen as int, buf@.len() as int);
    proof {
        assert(body@ == bodyv);
        assert(bodyv.len() < varint_limit());
        assert(kind as int == first as int / 16 && flags as int == first as int % 16);
        assert(kind as int * 16 + flags as int == first as int);
    }
    let res: Option<Packet> = if kind == 1 && flags == 0 {
        match parse_connect(body.as_slice()) {
            Some(c) => {
                proof {
                    lemma_connect_body_bound(c@);
                }
                Some(Packet::Connect(c))
            },
            None => None,
        }
    } else if kind == 2 && flags == 0 {
        parse_connack_body(body.as_slice())
    } else if kind == 3 {
        match parse_publish(flags, body.as_slice()) {
            Some(d) => Some(Packet::Publish(d)),
            None => None,
        }
    } else if kind == 4 && flags == 0 {
        parse_puback_body(body.as_slice())
    } else if kind == 8 && flags == 2 {
        parse_sub_body(body.as_slice(), true)
    } else if kind == 9 && flags == 0 {
        parse_ack_list_body(body.as_slice(), true)
    } else if kind == 10 && flags == 2 {
        parse_sub_body(body.as_slice(), false)
    } else if kind == 11 && flags == 0 {
        parse_ack_list_body(body.as_slice(), false)
    } else if kind == 12 && flags == 0 {
        if body.len() == 0 {
            Some(Packet::Pingreq)
        } else {
            None
        }
    } else if kind == 13 && flags == 0 {
        if body.len() == 0 {
            Some(Packet::Pingresp)
        } else {
            None
        }
    } else if kind == 14 && flags == 0 {
        parse_disconnect_body(body.as_slice())
    } else {
        None
    };
    match res {
        Some(p) => Ok(p),
        None => Err(MqttCodecError::Invalid),
    }
}

/// A well-formed CONNECT's canonical body stays below the length limit.
proof fn lemma_connect_body_bound(c: SpecConnect)
    requires
        c.wf(),
    ensures
        SpecPacket::Connect(c).body().len() < varint_limit(),
{
}

/// A parsed filter list prints back to as many bytes as it was read from.
proof fn lemma_filters_parse_bytes(s: Seq<u8>, i: int, with_options: bool, fs: Seq<Seq<u8>>)
    requires
        0 <= i <= s.len(),
        spec_parse_filters(s, i, with_options) == Some(fs),
    ensures
        spec_filters_bytes(fs, with_options).len() == s.len() - i,
    decreases s.len() - i,
{
    if i == s.len() {
        assert(spec_filters_bytes(fs, with_options) =~= Seq::<u8>::empty());
    } else {
        match spec_parse_str(s, i) {
            None => {},
            Some((f, j)) => {
                let j2 = if with_options {
                    j + 1
                } else {
                    j
                };
                let rest = spec_parse_filters(s, j2, with_options).unwrap();
                lemma_filters_parse_bytes(s, j2, with_options, rest);
                assert(fs == seq![f] + rest);
                assert(fs.drop_first() =~= rest);
                assert(fs[0] == f);
                let l = spec_u16_at(s, i);
                assert(f.len() == l);
                assert(j == i + 2 + l);
            },
        }
    }
}

/// The two bytes of a big-endian 16-bit value read back as themselves.
proof fn lemma_u16_bytes(hi: u8, lo: u8)
    ensures
        spec_u16((hi as int) * 256 + (lo as int)) == seq![hi, lo],
{
    let v = (hi as int) * 256 + (lo as int);
    assert(v / 256 == hi as int && v % 256 == lo as int) by (nonlinear_arith)
        requires
            v == (hi as int) * 256 + (lo as int),
            0 <= hi < 256,
            0 <= lo < 256,
    ;
    assert(spec_u16(v) =~= seq![hi, lo]);
}

/// Both bytes of a two-byte big-endian value read back to the value.
proof fn lemma_u16_round(v: int)
    requires
        0 <= v < 0x10000,
    ensures
        spec_u16(v).len() == 2,
        (spec_u16(v)[0] as int) * 256 + (spec_u16(v)[1] as int) == v,
{
    assert(0 <= v / 256 < 256 && (v / 256) % 256 == v / 256 && v == 256 * (v / 256) + v % 256)
        by (nonlinear_arith)
        requires
            0 <= v < 0x10000,
    ;
}

/// Where the printed form of a string sits in `s`, reading a string finds
/// it.
proof fn lemma_parse_str_of(s: Seq<u8>, i: int, c: Seq<u8>)
    requires
        0 <= i,
        c.len() < 0x10000,
        i + 2 + c.len() <= s.len(),
        s.subrange(i, i + 2 + c.len() as int) == spec_str(c),
    ensures
        spec_parse_str(s, i) == Some((c, i + 2 + c.len() as int)),
{
    let l = c.len() as int;
    lemma_u16_round(l);
    let sub = s.subrange(i, i + 2 + l);
    assert(s[i] == sub[0] && s[i + 1] == sub[1]);
    assert(sub[0] == spec_u16(l)[0] && sub[1] == spec_u16(l)[1]);
    assert(spec_u16_at(s, i) == l);
    assert(s.subrange(i + 2, i + 2 + l) =~= c) by {
        assert forall|k: int| 0 <= k < l implies s.subrange(i + 2, i + 2 + l)[k] == c[k] by {
            assert(s[i + 2 + k] == sub[2 + k]);
            assert(sub[2 + k] == spec_str(c)[2 + k]);
        }
    }
}

/// An empty property section is one zero byte.
proof fn lemma_skip_props_zero(s: Seq<u8>, i: int)
    requires
        0 <= i < s.len(),
        s[i] == 0,
    ensures
        spec_skip_props(s, i) == Some(i + 1),
{
    assert(spec_parse_varint(s, i) == (VarintParse::Done { value: 0, len: 1 }));
}

/// Where the printed form of a filter list fills `s` to the end, reading
/// the list finds it.
proof fn lemma_filters_round_trip(s: Seq<u8>, i: int, fs: Seq<Seq<u8>>, with_options: bool)
    requires
        0 <= i <= s.len(),
        all_filters_wf(fs),
        s.subrange(i, s.len() as int) == spec_filters_bytes(fs, with_options),
    ensures
        spec_parse_filters(s, i, with_options) == Some(fs),
    decreases fs.len(),
{
    let bytes = spec_filters_bytes(fs, with_options);
    if fs.len() == 0 {
        assert(bytes.len() == 0);
        assert(i == s.len());
        assert(spec_parse_filters(s, i, with_options) == Some(Seq::<Seq<u8>>::empty()));
        assert(fs =~= Seq::<Seq<u8>>::empty());
    } else {
        let f = fs[0];
        assert(f.len() < 0x10000);
        let j = i + 2 + f.len() as int;
        let opts: Seq<u8> = if with_options {
            seq![0u8]
        } else {
            seq![]
        };
        let rest_bytes = spec_filters_bytes(fs.drop_first(), with_options);
        assert(bytes == spec_str(f) + opts + rest_bytes);
        let j2 = if with_options {
            j + 1
        } else {
            j
        };
        assert(s.len() - i == bytes.len());
        assert(s.subrange(i, j) =~= spec_str(f)) by {
            assert forall|k: int| 0 <= k < 2 + f.len() implies s[i + k] == spec_str(f)[k] by {
                assert(s[i + k] == s.subrange(i, s.len() as int)[k]);
                assert(bytes[k] == spec_str(f)[k]);
            }
        }
        lemma_parse_str_of(s, i, f);
        if with_options {
            assert(s[j] == bytes[j - i]);
            assert(bytes[j - i] == 0);
        }
        assert(s.subrange(j2, s.len() as int) =~= rest_bytes) by {
            assert forall|k: int| 0 <= k < rest_bytes.len() implies s[j2 + k] == rest_bytes[k]
                by {
                assert(s[j2 + k] == s.subrange(i, s.len() as int)[j2 - i + k]);
                assert(bytes[j2 - i + k] == rest_bytes[k]);
            }
        }
        assert(all_filters_wf(fs.drop_first())) by {
            assert forall|k: int|
                0 <= k < fs.drop_first().len() implies (#[trigger] fs.drop_first()[k]).len()
                < 0x10000 by {
                assert(fs.drop_first()[k] == fs[k + 1]);
            }
        }
        lemma_filters_round_trip(s, j2, fs.drop_first(), with_options);
        assert(seq![f] + fs.drop_first() =~= fs);
    }
}

/// Writing then reading a CONNECT body yields the same packet.
#[verifier::rlimit(100)]
#[verifier::spinoff_prover]
proof fn lemma_connect_round(c: SpecConnect)
    requires
        c.wf(),
    ensures
        spec_parse_connect(SpecPacket::Connect(c).body()) == Some(SpecPacket::Connect(c)),
{
    let body = SpecPacket::Connect(c).body();
    let flags = c.flags();
    let head = seq![0u8, 4u8, 0x4Du8, 0x51u8, 0x54u8, 0x54u8, 5u8] + seq![flags as u8]
        + spec_u16(c.keep_alive as int) + seq![0u8] + spec_str(c.client_id);
    let wbytes: Seq<u8> = match c.will {
        Some(w) => w.bytes(),
        None => seq![],
    };
    assert(body == head + wbytes);
    assert(head.len() == 13 + c.client_id.len());
    let wq: int = match c.will {
        Some(w) => w.qos as int,
        None => 0,
    };
    let wr: int = match c.will {
        Some(w) => if w.retain {
            1int
        } else {
            0int
        },
        None => 0,
    };
    let hw: int = match c.will {
        Some(_) => 1int,
        None => 0int,
    };
    let cs: int = if c.clean_start {
        1int
    } else {
        0int
    };
    assert(flags == cs * 2 + hw * 4 + wq * 8 + wr * 32);
    assert(0 <= flags <= 54);
    assert(flags % 2 == 0 && flags / 2 % 2 == cs && flags / 4 % 2 == hw && flags / 8 % 4 == wq
        && flags / 32 % 2 == wr && flags / 64 % 2 == 0 && flags / 128 % 2 == 0)
        by (nonlinear_arith)
        requires
            flags == cs * 2 + hw * 4 + wq * 8 + wr * 32,
            0 <= cs <= 1,
            0 <= hw <= 1,
            0 <= wq <= 2,
            0 <= wr <= 1,
            hw == 0 ==> wq == 0 && wr == 0,
    ;
    assert(body.len() >= 13);
    assert(body.subrange(0, 7) =~= seq![0u8, 4u8, 0x4Du8, 0x51u8, 0x54u8, 0x54u8, 5u8]);
    assert(body[7] == flags as u8);
    assert(body[7] as int == flags);
    lemma_u16_round(c.keep_alive as int);
    assert(body[8] == spec_u16(c.keep_alive as int)[0] && body[9] == spec_u16(
        c.keep_alive as int,
    )[1]);
    assert(spec_u16_at(body, 8) == c.keep_alive as int);
    assert(body[10] == 0);
    lemma_skip_props_zero(body, 10);
    assert(body.subrange(11, 13 + c.client_id.len() as int) =~= spec_str(c.client_id));
    lemma_parse_str_of(body, 11, c.client_id);
    let i2 = 13 + c.client_id.len() as int;
    match c.will {
        None => {
            assert(body.len() == i2);
            assert(spec_parse_will(body, i2, flags) == Some((None::<SpecWill>, i2)));
            assert(spec_skip_user_pass(body, i2, flags) == Some(i2));
        },
        Some(w) => {
            assert(wbytes == seq![0u8] + spec_str(w.topic) + spec_str(w.payload));
            assert(body.len() == i2 + 5 + w.topic.len() + w.payload.len());
            assert(body[i2] == 0);
            lemma_skip_props_zero(body, i2);
            let i3 = i2 + 1;
            assert(body.subrange(i3, i3 + 2 + w.topic.len() as int) =~= spec_str(w.topic));
            lemma_parse_str_of(body, i3, w.topic);
            let i4 = i3 + 2 + w.topic.len() as int;
            assert(body.subrange(i4, i4 + 2 + w.payload.len() as int) =~= spec_str(w.payload));
            lemma_parse_str_of(body, i4, w.payload);
            let i5 = i4 + 2 + w.payload.len() as int;
            assert(body.len() == i5);
            assert(spec_parse_will(body, i2, flags) == Some((Some(w), i5)));
            assert(spec_skip_user_pass(body, i5, flags) == Some(i5));
        },
    }
}

/// Writing then reading a PUBLISH body yields the same packet.
#[verifier::rlimit(100)]
#[verifier::spinoff_prover]
proof fn lemma_publish_round(d: SpecPublish)
    requires
        d.wf(),
    ensures
        spec_parse_publish(d.flags(), SpecPacket::Publish(d).body()) == Some(
            SpecPacket::Publish(d),
        ),
{
    let body = SpecPacket::Publish(d).body();
    let flags = d.flags();
    let dup: int = if d.duplicate {
        1int
    } else {
        0int
    };
    let rt: int = if d.retain {
        1int
    } else {
        0int
    };
    assert(flags == dup * 8 + (d.qos as int) * 2 + rt);
    assert(flags / 2 % 4 == d.qos as int && flags % 2 == rt && flags / 8 % 2 == dup)
        by (nonlinear_arith)
        requires
            flags == dup * 8 + (d.qos as int) * 2 + rt,
            0 <= dup <= 1,
            0 <= rt <= 1,
            0 <= d.qos <= 2,
    ;
    let pid_bytes: Seq<u8> = match d.packet_identifier {
        Some(pid) => spec_u16(pid as int),
        None => seq![],
    };
    assert(body == spec_str(d.topic) + pid_bytes + seq![0u8] + d.payload);
    let i1 = 2 + d.topic.len() as int;
    assert(body.subrange(0, i1) =~= spec_str(d.topic));
    lemma_parse_str_of(body, 0, d.topic);
    let pid_end = i1 + pid_bytes.len() as int;
    match d.packet_identifier {
        Some(pid) => {
            lemma_u16_round(pid as int);
            assert(body[i1] == pid_bytes[0] && body[i1 + 1] == pid_bytes[1]);
            assert(spec_u16_at(body, i1) == pid as int);
        },
        None => {},
    }
    assert(body[pid_end] == 0);
    lemma_skip_props_zero(body, pid_end);
    assert(body.subrange(pid_end + 1, body.len() as int) =~= d.payload);
}

/// Writing any well-formed packet and reading the bytes back yields the
/// packet unchanged: the codec loses nothing on the wire.
#[verifier::rlimit(100)]
#[verifier::spinoff_prover]
pub proof fn lemma_packet_round_trip(p: SpecPacket)
    requires
        p.wf(),
    ensures
        spec_parse_packet(p.bytes()) == Some(p),
{
    let body = p.body();
    let s = p.bytes();
    let ev = spec_encode_varint(body.len() as int);
    crate::varint::lemma_encode_varint_len(body.len() as int);
    assert(s.len() == 1 + ev.len() + body.len());
    assert(s[0] == p.first_byte());
    assert(s.subrange(1, 1 + ev.len() as int) =~= ev);
    crate::varint::lemma_varint_round_trip_at(s, 1, body.len() as int);
    assert(s.subrange(1 + ev.len() as int, s.len() as int) =~= body);
    let kind = p.first_byte() as int / 16;
    let flags = p.first_byte() as int % 16;
    match p {
        SpecPacket::Connect(c) => {
            lemma_connect_round(c);
        },
        SpecPacket::Connack { session_present, reason } => {
            assert(body[2] == 0);
            lemma_skip_props_zero(body, 2);
        },
        SpecPacket::Publish(d) => {
            assert(0x30 <= p.first_byte() as int <= 0x3D);
            assert(kind == 3 && flags == d.flags()) by (nonlinear_arith)
                requires
                    p.first_byte() as int == 0x30 + d.flags(),
                    0 <= d.flags() < 16,
                    kind == p.first_byte() as int / 16,
                    flags == p.first_byte() as int % 16,
            ;
            lemma_publish_round(d);
        },
        SpecPacket::Puback { packet_identifier, reason } => {
            lemma_u16_round(packet_identifier as int);
            assert(body[0] == spec_u16(packet_identifier as int)[0] && body[1] == spec_u16(
                packet_identifier as int,
            )[1]);
            assert(spec_u16_at(body, 0) == packet_identifier as int);
            assert(body.len() == 4 && body[3] == 0);
            lemma_skip_props_zero(body, 3);
        },
        SpecPacket::Subscribe { packet_identifier, filters } => {
            lemma_u16_round(packet_identifier as int);
            assert(body[0] == spec_u16(packet_identifier as int)[0] && body[1] == spec_u16(
                packet_identifier as int,
            )[1]);
            assert(spec_u16_at(body, 0) == packet_identifier as int);
            assert(body[2] == 0);
            lemma_skip_props_zero(body, 2);
            assert(body.subrange(3, body.len() as int) =~= spec_filters_bytes(filters, true));
            lemma_filters_round_trip(body, 3, filters, true);
        },
        SpecPacket::Suback { packet_identifier, reasons } => {
            lemma_u16_round(packet_identifier as int);
            assert(body[0] == spec_u16(packet_identifier as int)[0] && body[1] == spec_u16(
                packet_identifier as int,
            )[1]);
            assert(spec_u16_at(body, 0) == packet_identifier as int);
            assert(body[2] == 0);
            lemma_skip_props_zero(body, 2);
            assert(body.subrange(3, body.len() as int) =~= reasons);
        },
        SpecPacket::Unsubscribe { packet_identifier, filters } => {
            lemma_u16_round(packet_identifier as int);
            assert(body[0] == spec_u16(packet_identifier as int)[0] && body[1] == spec_u16(
                packet_identifier as int,
            )[1]);
            assert(spec_u16_at(body, 0) == packet_identifier as int);
            assert(body[2] == 0);
            lemma_skip_props_zero(body, 2);
            assert(body.subrange(3, body.len() as int) =~= spec_filters_bytes(filters, false));
            lemma_filters_round_trip(body, 3, filters, false);
        },
        SpecPacket::Unsuback { packet_identifier, reasons } => {
            lemma_u16_round(packet_identifier as int);
            assert(body[0] == spec_u16(packet_identifier as int)[0] && body[1] == spec_u16(
                packet_identifier as int,
            )[1]);
            assert(spec_u16_at(body, 0) == packet_identifier as int);
            assert(body[2] == 0);
            lemma_skip_props_zero(body, 2);
            assert(body.subrange(3, body.len() as int) =~= reasons);
        },
        SpecPacket::Pingreq => {},
        SpecPacket::Pingresp => {},
        SpecPacket::Disconnect { reason } => {
            assert(body.len() == 2 && body[1] == 0);
            lemma_skip_props_zero(body, 1);
        },
    }
}

} // verus!
