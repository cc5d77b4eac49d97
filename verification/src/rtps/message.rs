//! Messages and submessages, and their bytes.

use vstd::prelude::*;
use vstd::slice::{slice_subrange, slice_to_vec};

use crate::error::ProtocolError;
use crate::le;

verus! {

/// Version 2.3 of the wire protocol.
pub const VERSION: [u8; 2] = [2, 3];

/// The vendor identifier nobody was assigned.
pub const VENDOR_UNKNOWN: [u8; 2] = [0, 0];

/// The reader every writer may address.
pub const ENTITYID_UNKNOWN: [u8; 4] = [0, 0, 0, 0];

/// A user-defined writer with a key.
pub const WRITER_WITH_KEY: [u8; 4] = [0x00, 0x00, 0x01, 0x02];

/// The identifier of a timestamp submessage.
pub const INFO_TS: u8 = 0x09;

/// The identifier of a submessage that carries a sample whole.
pub const DATA: u8 = 0x15;

/// The identifier of a submessage that carries a run of fragments.
pub const DATA_FRAG: u8 = 0x16;

/// The endianness flag: little.
pub const FLAG_ENDIAN: u8 = 0x01;

/// `DATA` carries serialized data.
pub const FLAG_DATA: u8 = 0x04;

/// One submessage.
#[derive(Clone, Debug, PartialEq, Eq)]
pub enum Submessage {
    InfoTimestamp { seconds: i32, fraction: u32 },
    Data { writer_id: [u8; 4], sequence: i64, payload: Vec<u8> },
    DataFrag {
        writer_id: [u8; 4],
        sequence: i64,
        /// The first fragment carried, counted from one.
        starting: u32,
        count: u16,
        size: u16,
        sample_size: u32,
        payload: Vec<u8>,
    },
}

/// One message: who sent it, and what.
#[derive(Clone, Debug, PartialEq, Eq)]
pub struct Message {
    pub guid_prefix: [u8; 12],
    pub submessages: Vec<Submessage>,
}

/// A submessage as a mathematical value.
pub enum SubmessageView {
    InfoTimestamp { seconds: i32, fraction: u32 },
    Data { writer_id: Seq<u8>, sequence: i64, payload: Seq<u8> },
    DataFrag {
        writer_id: Seq<u8>,
        sequence: i64,
        starting: u32,
        count: u16,
        size: u16,
        sample_size: u32,
        payload: Seq<u8>,
    },
}

/// A message as a mathematical value.
pub struct MessageView {
    pub guid_prefix: Seq<u8>,
    pub submessages: Seq<SubmessageView>,
}

impl View for Submessage {
    type V = SubmessageView;

    open spec fn view(&self) -> SubmessageView {
        match self {
            Submessage::InfoTimestamp { seconds, fraction } => SubmessageView::InfoTimestamp {
                seconds: *seconds,
                fraction: *fraction,
            },
            Submessage::Data { writer_id, sequence, payload } => SubmessageView::Data {
                writer_id: writer_id@,
                sequence: *sequence,
                payload: payload@,
            },
            Submessage::DataFrag {
                writer_id,
                sequence,
                starting,
                count,
                size,
                sample_size,
                payload,
            } => SubmessageView::DataFrag {
                writer_id: writer_id@,
                sequence: *sequence,
                starting: *starting,
                count: *count,
                size: *size,
                sample_size: *sample_size,
                payload: payload@,
            },
        }
    }
}

impl View for Message {
    type V = MessageView;

    open spec fn view(&self) -> MessageView {
        MessageView {
            guid_prefix: self.guid_prefix@,
            submessages: self.submessages@.map_values(|submessage: Submessage| submessage@),
        }
    }
}

/// A sequence number on the wire: its high half, signed, then its low half.
pub open spec fn sequence_wire(sequence: int) -> Seq<u8> {
    le::le_bytes(le::twos_complement_32(sequence / 0x1_0000_0000), 4) + le::le_bytes(
        (sequence % 0x1_0000_0000) as nat,
        4,
    )
}

/// The sequence number that eight bytes write.
pub open spec fn sequence_value(bytes: Seq<u8>) -> int {
    0x1_0000_0000 * le::signed_32(le::le_value(bytes.subrange(0, 4))) + le::le_value(
        bytes.subrange(4, 8),
    )
}

/// A sequence number as its eight bytes on the wire.
pub fn sequence_bytes(sequence: i64) -> (bytes: [u8; 8])
    ensures
        bytes@ == sequence_wire(sequence as int),
{
    let bits: u64 = if sequence < 0 {
        (sequence as i128 + 0x1_0000_0000_0000_0000) as u64
    } else {
        sequence as u64
    };
    let high: u32 = (bits / 0x1_0000_0000) as u32;
    let low: u32 = (bits % 0x1_0000_0000) as u32;
    proof {
        le::lemma_le_bytes_unfold(high as nat);
        le::lemma_le_bytes_unfold(low as nat);
    }
    assert(high == le::twos_complement_32(sequence as int / 0x1_0000_0000));
    assert(low == sequence as int % 0x1_0000_0000);
    let bytes: [u8; 8] = [
        (high % 256) as u8,
        (high / 256 % 256) as u8,
        (high / 0x1_0000 % 256) as u8,
        (high / 0x100_0000) as u8,
        (low % 256) as u8,
        (low / 256 % 256) as u8,
        (low / 0x1_0000 % 256) as u8,
        (low / 0x100_0000) as u8,
    ];
    assert(bytes@ =~= sequence_wire(sequence as int));
    bytes
}

/// The sequence number that the first eight of `bytes` write.
pub fn sequence_of(bytes: &[u8]) -> (sequence: i64)
    requires
        bytes@.len() >= 8,
    ensures
        sequence == sequence_value(bytes@),
{
    let high: i32 = le::get_i32(bytes, 0);
    let low: u32 = le::get_u32(bytes, 4);
    high as i64 * 0x1_0000_0000 + low as i64
}

/// Law: every sequence number reads back from its bytes.
pub proof fn law_sequence_reads_back(sequence: i64)
    ensures
        sequence_wire(sequence as int).len() == 8,
        sequence_value(sequence_wire(sequence as int)) == sequence,
{
    let high = le::twos_complement_32(sequence as int / 0x1_0000_0000);
    let low = (sequence as int % 0x1_0000_0000) as nat;
    le::lemma_le_bytes_len(high, 4);
    le::lemma_le_bytes_len(low, 4);
    le::law_le_reads_back(high);
    le::law_le_reads_back(low);
    let bytes = sequence_wire(sequence as int);
    assert(bytes.subrange(0, 4) =~= le::le_bytes(high, 4));
    assert(bytes.subrange(4, 8) =~= le::le_bytes(low, 4));
}

/// What follows a submessage's header, for submessages that carry a sample or
/// part of one: the extra flags, the distance to the inline parameters, the
/// reader, the writer and the sequence number.
pub open spec fn sample_head(distance: u8, writer_id: Seq<u8>, sequence: i64) -> Seq<u8> {
    seq![0u8, 0u8, distance, 0u8] + ENTITYID_UNKNOWN@ + writer_id + sequence_wire(sequence as int)
}

impl SubmessageView {
    /// The identifier on the wire.
    pub open spec fn id(self) -> u8 {
        match self {
            SubmessageView::InfoTimestamp { .. } => INFO_TS,
            SubmessageView::Data { .. } => DATA,
            SubmessageView::DataFrag { .. } => DATA_FRAG,
        }
    }

    /// The flags on the wire.
    pub open spec fn flags(self) -> u8 {
        match self {
            SubmessageView::InfoTimestamp { .. } => FLAG_ENDIAN,
            SubmessageView::Data { .. } => FLAG_ENDIAN | FLAG_DATA,
            SubmessageView::DataFrag { .. } => FLAG_ENDIAN,
        }
    }

    /// The bytes behind the submessage's header.
    pub open spec fn body(self) -> Seq<u8> {
        match self {
            SubmessageView::InfoTimestamp { seconds, fraction } => le::le_bytes(
                le::twos_complement_32(seconds as int),
                4,
            ) + le::le_bytes(fraction as nat, 4),
            SubmessageView::Data { writer_id, sequence, payload } => sample_head(
                16,
                writer_id,
                sequence,
            ) + payload,
            SubmessageView::DataFrag {
                writer_id,
                sequence,
                starting,
                count,
                size,
                sample_size,
                payload,
            } => sample_head(28, writer_id, sequence) + le::le_bytes(starting as nat, 4)
                + le::le_bytes(count as nat, 2) + le::le_bytes(size as nat, 2) + le::le_bytes(
                sample_size as nat,
                4,
            ) + payload,
        }
    }

    /// A writer's identifier has four bytes.
    pub open spec fn well_formed(self) -> bool {
        match self {
            SubmessageView::InfoTimestamp { .. } => true,
            SubmessageView::Data { writer_id, .. } => writer_id.len() == 4,
            SubmessageView::DataFrag { writer_id, .. } => writer_id.len() == 4,
        }
    }

    /// The length field can say how long the body is.
    pub open spec fn fits(self) -> bool {
        self.body().len() <= 0xffff
    }

    /// The submessage on the wire. Its length field stops at what two bytes
    /// can write.
    pub open spec fn wire(self) -> Seq<u8> {
        seq![self.id(), self.flags()] + le::le_bytes(
            le::saturated(self.body().len(), 0xffff),
            2,
        ) + self.body()
    }
}

impl Submessage {
    /// Write the submessage at the end of `out`.
    pub fn encode(&self, out: &mut Vec<u8>)
        ensures
            final(out)@ == old(out)@ + self@.wire(),
    {
        let mut body: Vec<u8> = Vec::new();
        let id: u8;
        let flags: u8;
        match self {
            Submessage::InfoTimestamp { seconds, fraction } => {
                le::put_i32(&mut body, *seconds);
                le::put_u32(&mut body, *fraction);
                id = INFO_TS;
                flags = FLAG_ENDIAN;
            },
            Submessage::Data { writer_id, sequence, payload } => {
                body = vec![0, 0, 16, 0];
                le::put_bytes(&mut body, &ENTITYID_UNKNOWN);
                le::put_bytes(&mut body, writer_id);
                le::put_bytes(&mut body, &sequence_bytes(*sequence));
                le::put_bytes(&mut body, payload.as_slice());
                id = DATA;
                flags = FLAG_ENDIAN | FLAG_DATA;
            },
            Submessage::DataFrag {
                writer_id,
                sequence,
                starting,
                count,
                size,
                sample_size,
                payload,
            } => {
                body = vec![0, 0, 28, 0];
                le::put_bytes(&mut body, &ENTITYID_UNKNOWN);
                le::put_bytes(&mut body, writer_id);
                le::put_bytes(&mut body, &sequence_bytes(*sequence));
                le::put_u32(&mut body, *starting);
                le::put_u16(&mut body, *count);
                le::put_u16(&mut body, *size);
                le::put_u32(&mut body, *sample_size);
                le::put_bytes(&mut body, payload.as_slice());
                id = DATA_FRAG;
                flags = FLAG_ENDIAN;
            },
        }
        assert(body@ =~= self@.body());
        let length: u16 = if body.len() <= 0xffff {
            body.len() as u16
        } else {
            0xffff
        };
        let ghost before = out@;
        out.push(id);
        out.push(flags);
        le::put_u16(out, length);
        le::put_bytes(out, body.as_slice());
        assert(out@ =~= before + self@.wire());
    }
}

/// The submessage that `body` carries behind a header with `id` and `flags`;
/// `None` where `id` is one this crate does not read.
pub open spec fn read_submessage(id: u8, flags: u8, body: Seq<u8>) -> Result<
    Option<SubmessageView>,
    ProtocolError,
> {
    if flags & FLAG_ENDIAN == 0 {
        Err(ProtocolError::BigEndian)
    } else if id == INFO_TS {
        if body.len() < 8 {
            Err(ProtocolError::SubmessageHeaderCut)
        } else {
            Ok(
                Some(
                    SubmessageView::InfoTimestamp {
                        seconds: le::signed_32(le::le_value(body.subrange(0, 4))) as i32,
                        fraction: le::le_value(body.subrange(4, 8)) as u32,
                    },
                ),
            )
        }
    } else if id == DATA {
        if body.len() < 20 {
            Err(ProtocolError::SubmessageHeaderCut)
        } else if flags & FLAG_DATA == 0 {
            Err(ProtocolError::DataWithoutData)
        } else {
            Ok(
                Some(
                    SubmessageView::Data {
                        writer_id: body.subrange(8, 12),
                        sequence: sequence_value(body.subrange(12, 20)) as i64,
                        payload: body.skip(20),
                    },
                ),
            )
        }
    } else if id == DATA_FRAG {
        if body.len() < 32 {
            Err(ProtocolError::SubmessageHeaderCut)
        } else {
            Ok(
                Some(
                    SubmessageView::DataFrag {
                        writer_id: body.subrange(8, 12),
                        sequence: sequence_value(body.subrange(12, 20)) as i64,
                        starting: le::le_value(body.subrange(20, 24)) as u32,
                        count: le::le_value(body.subrange(24, 26)) as u16,
                        size: le::le_value(body.subrange(26, 28)) as u16,
                        sample_size: le::le_value(body.subrange(28, 32)) as u32,
                        payload: body.skip(32),
                    },
                ),
            )
        }
    } else {
        Ok(None)
    }
}

impl Submessage {
    /// The submessage that `body` carries behind a header with `id` and
    /// `flags`; `None` where `id` is one this crate does not read.
    pub fn decode(id: u8, flags: u8, body: &[u8]) -> (found: Result<
        Option<Submessage>,
        ProtocolError,
    >)
        ensures
            match found {
                Ok(Some(submessage)) => read_submessage(id, flags, body@) == Ok::<
                    _,
                    ProtocolError,
                >(Some(submessage@)),
                Ok(None) => read_submessage(id, flags, body@) == Ok::<_, ProtocolError>(
                    None::<SubmessageView>,
                ),
                Err(error) => read_submessage(id, flags, body@) == Err::<
                    Option<SubmessageView>,
                    _,
                >(error),
            },
    {
        if flags & FLAG_ENDIAN == 0 {
            return Err(ProtocolError::BigEndian);
        }
        if id == INFO_TS {
            if body.len() < 8 {
                return Err(ProtocolError::SubmessageHeaderCut);
            }
            Ok(
                Some(
                    Submessage::InfoTimestamp {
                        seconds: le::get_i32(body, 0),
                        fraction: le::get_u32(body, 4),
                    },
                ),
            )
        } else if id == DATA {
            if body.len() < 20 {
                return Err(ProtocolError::SubmessageHeaderCut);
            }
            if flags & FLAG_DATA == 0 {
                return Err(ProtocolError::DataWithoutData);
            }
            let writer_id: [u8; 4] = [body[8], body[9], body[10], body[11]];
            assert(writer_id@ =~= body@.subrange(8, 12));
            Ok(
                Some(
                    Submessage::Data {
                        writer_id,
                        sequence: sequence_of(slice_subrange(body, 12, 20)),
                        payload: slice_to_vec(slice_subrange(body, 20, body.len())),
                    },
                ),
            )
        } else if id == DATA_FRAG {
            if body.len() < 32 {
                return Err(ProtocolError::SubmessageHeaderCut);
            }
            let writer_id: [u8; 4] = [body[8], body[9], body[10], body[11]];
            assert(writer_id@ =~= body@.subrange(8, 12));
            Ok(
                Some(
                    Submessage::DataFrag {
                        writer_id,
                        sequence: sequence_of(slice_subrange(body, 12, 20)),
                        starting: le::get_u32(body, 20),
                        count: le::get_u16(body, 24),
                        size: le::get_u16(body, 26),
                        sample_size: le::get_u32(body, 28),
                        payload: slice_to_vec(slice_subrange(body, 32, body.len())),
                    },
                ),
            )
        } else {
            // A submessage this crate does not read is skipped, as the
            // protocol says a reader must.
            Ok(None)
        }
    }
}

/// The protocol's name, as a message starts.
pub open spec fn protocol_name() -> Seq<u8> {
    seq![0x52u8, 0x54u8, 0x50u8, 0x53u8]
}

/// The header of a message from `guid_prefix`.
pub open spec fn header_wire(guid_prefix: Seq<u8>) -> Seq<u8> {
    protocol_name() + VERSION@ + VENDOR_UNKNOWN@ + guid_prefix
}

/// Submessages one behind the other on the wire.
pub open spec fn submessages_wire(submessages: Seq<SubmessageView>) -> Seq<u8>
    decreases submessages.len(),
{
    if submessages.len() == 0 {
        Seq::empty()
    } else {
        submessages[0].wire() + submessages_wire(submessages.drop_first())
    }
}

impl MessageView {
    /// A GUID prefix has twelve bytes, and each submessage is well formed.
    pub open spec fn well_formed(self) -> bool {
        &&& self.guid_prefix.len() == 12
        &&& forall|k: int|
            0 <= k < self.submessages.len() ==> (#[trigger] self.submessages[k]).well_formed()
    }

    /// Each length field can say how long its submessage is.
    pub open spec fn fits(self) -> bool {
        forall|k: int| 0 <= k < self.submessages.len() ==> (#[trigger] self.submessages[k]).fits()
    }

    /// The message on the wire.
    pub open spec fn wire(self) -> Seq<u8> {
        header_wire(self.guid_prefix) + submessages_wire(self.submessages)
    }
}

/// How many bytes the body of the submessage at the start of `rest` has. A
/// length of zero means that it runs to the end.
pub open spec fn body_length(rest: Seq<u8>) -> nat
    recommends
        rest.len() >= 4,
{
    let stated = le::le_value(rest.subrange(2, 4));
    if stated == 0 {
        (rest.len() - 4) as nat
    } else {
        stated
    }
}

/// The submessages that `rest` carries, those this crate does not read left
/// out; or the first refusal among them.
pub open spec fn read_submessages(rest: Seq<u8>) -> Result<Seq<SubmessageView>, ProtocolError>
    decreases rest.len(),
{
    if rest.len() == 0 {
        Ok(Seq::empty())
    } else if rest.len() < 4 {
        Err(ProtocolError::SubmessageHeaderCut)
    } else if 4 + body_length(rest) > rest.len() {
        Err(ProtocolError::SubmessageCut)
    } else {
        let end = 4 + body_length(rest) as int;
        match read_submessage(rest[0], rest[1], rest.subrange(4, end)) {
            Err(error) => Err(error),
            Ok(Some(submessage)) => behind(seq![submessage], read_submessages(rest.skip(end))),
            Ok(None) => read_submessages(rest.skip(end)),
        }
    }
}

/// What was read, behind what `earlier` holds.
pub open spec fn behind(
    earlier: Seq<SubmessageView>,
    read: Result<Seq<SubmessageView>, ProtocolError>,
) -> Result<Seq<SubmessageView>, ProtocolError> {
    match read {
        Ok(following) => Ok(earlier + following),
        Err(error) => Err(error),
    }
}

/// The message that `bytes` carry, or why they are refused.
pub open spec fn read_message(bytes: Seq<u8>) -> Result<MessageView, ProtocolError> {
    if bytes.len() < 20 {
        Err(ProtocolError::MessageHeaderCut)
    } else if bytes.subrange(0, 4) != protocol_name() || bytes[4] != 2 {
        Err(ProtocolError::NotRtps)
    } else {
        match read_submessages(bytes.skip(20)) {
            Ok(submessages) => Ok(
                MessageView { guid_prefix: bytes.subrange(8, 20), submessages },
            ),
            Err(error) => Err(error),
        }
    }
}

/// The wire of submessages with one more at the end.
pub proof fn lemma_submessages_wire_push(
    submessages: Seq<SubmessageView>,
    last: SubmessageView,
)
    ensures
        submessages_wire(submessages.push(last)) == submessages_wire(submessages) + last.wire(),
    decreases submessages.len(),
{
    let longer = submessages.push(last);
    if submessages.len() == 0 {
        reveal_with_fuel(submessages_wire, 2);
        assert(longer[0] == last);
        assert(submessages_wire(longer) =~= submessages_wire(submessages) + last.wire());
    } else {
        assert(longer.drop_first() =~= submessages.drop_first().push(last));
        lemma_submessages_wire_push(submessages.drop_first(), last);
        assert(submessages_wire(longer) =~= submessages_wire(submessages) + last.wire());
    }
}

impl Message {
    /// The message as the datagram carries it.
    #[must_use]
    pub fn encode(&self) -> (out: Vec<u8>)
        ensures
            out@ == self@.wire(),
    {
        let mut out: Vec<u8> = vec![0x52, 0x54, 0x50, 0x53];
        le::put_bytes(&mut out, &VERSION);
        le::put_bytes(&mut out, &VENDOR_UNKNOWN);
        le::put_bytes(&mut out, &self.guid_prefix);
        assert(out@ =~= header_wire(self.guid_prefix@));
        let mut at: usize = 0;
        assert(self@.submessages.take(0) =~= Seq::empty());
        while at < self.submessages.len()
            invariant
                at <= self.submessages@.len(),
                out@ == header_wire(self.guid_prefix@) + submessages_wire(
                    self@.submessages.take(at as int),
                ),
            decreases self.submessages@.len() - at,
        {
            self.submessages[at].encode(&mut out);
            proof {
                let earlier = self@.submessages.take(at as int);
                let last = self@.submessages[at as int];
                assert(self@.submessages.take(at + 1) =~= earlier.push(last));
                lemma_submessages_wire_push(earlier, last);
                assert(out@ =~= header_wire(self.guid_prefix@) + submessages_wire(
                    earlier.push(last),
                ));
            }
            at += 1;
        }
        assert(self@.submessages.take(at as int) =~= self@.submessages);
        out
    }

    /// The message `bytes` carry, submessages this crate does not read
    /// skipped.
    ///
    /// # Errors
    /// Not an RTPS 2 header, or a submessage cut off, big-endian, or a `DATA`
    /// without data.
    pub fn decode(bytes: &[u8]) -> (read: Result<Message, ProtocolError>)
        ensures
            match read {
                Ok(message) => read_message(bytes@) == Ok::<_, ProtocolError>(message@),
                Err(error) => read_message(bytes@) == Err::<MessageView, _>(error),
            },
    {
        if bytes.len() < 20 {
            return Err(ProtocolError::MessageHeaderCut);
        }
        if bytes[0] != 0x52 || bytes[1] != 0x54 || bytes[2] != 0x50 || bytes[3] != 0x53
            || bytes[4] != 2 {
            proof {
                let name = bytes@.subrange(0, 4);
                assert(name[0] == bytes@[0] && name[1] == bytes@[1] && name[2] == bytes@[2]
                    && name[3] == bytes@[3]);
            }
            return Err(ProtocolError::NotRtps);
        }
        assert(bytes@.subrange(0, 4) =~= protocol_name());
        let guid_prefix: [u8; 12] = [
            bytes[8],
            bytes[9],
            bytes[10],
            bytes[11],
            bytes[12],
            bytes[13],
            bytes[14],
            bytes[15],
            bytes[16],
            bytes[17],
            bytes[18],
            bytes[19],
        ];
        assert(guid_prefix@ =~= bytes@.subrange(8, 20));
        let mut submessages: Vec<Submessage> = Vec::new();
        let mut rest: &[u8] = slice_subrange(bytes, 20, bytes.len());
        let ghost all = bytes@.skip(20);
        let ghost mut found: Seq<SubmessageView> = Seq::empty();
        assert(rest@ =~= all);
        assert(read_submessages(all) == behind(found, read_submessages(rest@))) by {
            if let Ok(following) = read_submessages(all) {
                assert(found + following =~= following);
            }
        }
        while rest.len() > 0
            invariant
                read_submessages(all) == behind(found, read_submessages(rest@)),
                found == submessages@.map_values(|submessage: Submessage| submessage@),
                bytes@.len() >= 20,
                all == bytes@.skip(20),
                bytes@.subrange(0, 4) == protocol_name(),
                bytes@[4] == 2,
            decreases rest@.len(),
        {
            if rest.len() < 4 {
                return Err(ProtocolError::SubmessageHeaderCut);
            }
            let stated: u16 = le::get_u16(rest, 2);
            let length: usize = if stated == 0 {
                rest.len() - 4
            } else {
                stated as usize
            };
            if length > rest.len() - 4 {
                return Err(ProtocolError::SubmessageCut);
            }
            let ghost earlier = rest@;
            let ghost end = 4 + length as int;
            match Submessage::decode(rest[0], rest[1], slice_subrange(rest, 4, 4 + length)) {
                Err(error) => {
                    return Err(error);
                },
                Ok(Some(submessage)) => {
                    proof {
                        if let Ok(following) = read_submessages(earlier.skip(end)) {
                            assert(found + (seq![submessage@] + following) =~= found.push(
                                submessage@,
                            ) + following);
                        }
                        found = found.push(submessage@);
                    }
                    submessages.push(submessage);
                    assert(found =~= submessages@.map_values(
                        |submessage: Submessage| submessage@,
                    ));
                },
                Ok(None) => {},
            }
            rest = slice_subrange(rest, 4 + length, rest.len());
            assert(rest@ =~= earlier.skip(end));
        }
        assert(found + Seq::<SubmessageView>::empty() =~= found);
        Ok(Message { guid_prefix, submessages })
    }
}

} // verus!
