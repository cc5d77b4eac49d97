//! What stands where in the bytes of a message, written and read.

use vstd::prelude::*;

use crate::error::ProtocolError;
use crate::le;
use crate::rtps::laws;
use crate::rtps::message;
use crate::rtps::message::{Message, MessageView, Submessage, SubmessageView};

verus! {

/// The body of a submessage that carries a sample, or part of one, starts as
/// the protocol says: no extra flags, the distance to what follows the
/// sequence number, the reader every writer may address, the writer, and the
/// sequence number, its high half first.
pub open spec fn starts_as_sample(
    body: Seq<u8>,
    distance: u8,
    writer_id: Seq<u8>,
    sequence: i64,
) -> bool {
    &&& body.len() >= 20
    &&& body[0] == 0 && body[1] == 0
    &&& body[2] == distance && body[3] == 0
    &&& body[4] == 0 && body[5] == 0 && body[6] == 0 && body[7] == 0
    &&& forall|k: int| 0 <= k < 4 ==> #[trigger] writer_id[k] == body[8 + k]
    &&& le::u32_at(body, 12) == if sequence >= 0 {
        sequence as int / 0x1_0000_0000
    } else {
        sequence as int / 0x1_0000_0000 + 0x1_0000_0000
    }
    &&& le::u32_at(body, 16) == sequence as int % 0x1_0000_0000
}

/// A sequence number stands on the wire as two numbers of four bytes.
proof fn lemma_sequence_places(body: Seq<u8>, at: int, sequence: i64)
    requires
        0 <= at,
        at + 8 <= body.len(),
        body.subrange(at, at + 8) == message::sequence_wire(sequence as int),
    ensures
        le::u32_at(body, at) == if sequence >= 0 {
            sequence as int / 0x1_0000_0000
        } else {
            sequence as int / 0x1_0000_0000 + 0x1_0000_0000
        },
        le::u32_at(body, at + 4) == sequence as int % 0x1_0000_0000,
{
    let high = le::twos_complement_32(sequence as int / 0x1_0000_0000);
    let low = (sequence as int % 0x1_0000_0000) as nat;
    le::law_first_byte_counts_ones(high);
    le::law_first_byte_counts_ones(low);
    let wire = message::sequence_wire(sequence as int);
    let (first, second) = (le::le_bytes(high, 4), le::le_bytes(low, 4));
    assert(wire =~= first + second);
    assert forall|k: int| 0 <= k < 8 implies body[at + k] == #[trigger] wire[k] by {
        assert(body.subrange(at, at + 8)[k] == body[at + k]);
    }
    assert(first[0] == wire[0] && first[1] == wire[1] && first[2] == wire[2] && first[3]
        == wire[3]);
    assert(second[0] == wire[4] && second[1] == wire[5] && second[2] == wire[6] && second[3]
        == wire[7]);
    assert(body[at + 0] == wire[0]);
}

/// Numbers of four bytes, or two, stand in a body as they are written.
proof fn lemma_number_places(body: Seq<u8>, at: int, value: nat)
    requires
        0 <= at,
    ensures
        at + 2 <= body.len() && value < 0x1_0000 && body.subrange(at, at + 2) == le::le_bytes(
            value,
            2,
        ) ==> le::u16_at(body, at) == value,
        at + 4 <= body.len() && value < 0x1_0000_0000 && body.subrange(at, at + 4)
            == le::le_bytes(value, 4) ==> le::u32_at(body, at) == value,
{
    le::law_first_byte_is_read_as_ones(body, at);
    le::law_le_reads_back(value);
}

/// Law: a message starts with the protocol's name, version 2.3, the vendor
/// that nobody was assigned, and the sender's GUID prefix.
pub proof fn law_message_starts_with_its_header(sent: MessageView)
    requires
        sent.guid_prefix.len() == 12,
    ensures
        ({
            let wire = sent.wire();
            &&& wire.len() >= 20
            &&& wire[0] == 'R' as int && wire[1] == 'T' as int
            &&& wire[2] == 'P' as int && wire[3] == 'S' as int
            &&& wire[4] == 2 && wire[5] == 3
            &&& wire[6] == 0 && wire[7] == 0
            &&& forall|k: int| 0 <= k < 12 ==> #[trigger] sent.guid_prefix[k] == wire[8 + k]
        }),
{
}

/// Law: behind the header of a message its submessages follow one another,
/// with nothing between them.
pub proof fn law_submessages_follow_one_another(
    guid_prefix: Seq<u8>,
    earlier: Seq<SubmessageView>,
    last: SubmessageView,
)
    requires
        guid_prefix.len() == 12,
    ensures
        (MessageView { guid_prefix, submessages: Seq::empty() }).wire().len() == 20,
        (MessageView { guid_prefix, submessages: earlier.push(last) }).wire() == (MessageView {
            guid_prefix,
            submessages: earlier,
        }).wire() + last.wire(),
{
    message::lemma_submessages_wire_push(earlier, last);
    assert((MessageView { guid_prefix, submessages: earlier.push(last) }).wire() =~= (MessageView {
        guid_prefix,
        submessages: earlier,
    }).wire() + last.wire());
}

/// Law: a submessage is its identifier, its flags, how long its body is, and
/// its body, each part of which has its place.
pub proof fn law_submessage_layout(submessage: SubmessageView)
    requires
        submessage.well_formed(),
    ensures
        ({
            let wire = submessage.wire();
            let body = wire.skip(4);
            &&& submessage.body() == body
            &&& submessage.id() == wire[0]
            &&& submessage.flags() == wire[1]
            &&& wire.len() == 4 + body.len()
            &&& le::u16_at(wire, 2) == if body.len() <= 0xffff {
                body.len() as int
            } else {
                0xffff
            }
            &&& match submessage {
                SubmessageView::InfoTimestamp { seconds, fraction } => {
                    &&& wire[0] == 0x09 && wire[1] == 0x01
                    &&& body.len() == 8
                    &&& le::u32_at(body, 0) == if seconds >= 0 {
                        seconds as int
                    } else {
                        seconds + 0x1_0000_0000
                    }
                    &&& le::u32_at(body, 4) == fraction
                },
                SubmessageView::Data { writer_id, sequence, payload } => {
                    &&& wire[0] == 0x15 && wire[1] == 0x05
                    &&& starts_as_sample(body, 16, writer_id, sequence)
                    &&& body.len() == 20 + payload.len()
                    &&& forall|k: int|
                        0 <= k < payload.len() ==> #[trigger] payload[k] == body[20 + k]
                },
                SubmessageView::DataFrag {
                    writer_id,
                    sequence,
                    starting,
                    count,
                    size,
                    sample_size,
                    payload,
                } => {
                    &&& wire[0] == 0x16 && wire[1] == 0x01
                    &&& starts_as_sample(body, 28, writer_id, sequence)
                    &&& le::u32_at(body, 20) == starting
                    &&& le::u16_at(body, 24) == count
                    &&& le::u16_at(body, 26) == size
                    &&& le::u32_at(body, 28) == sample_size
                    &&& body.len() == 32 + payload.len()
                    &&& forall|k: int|
                        0 <= k < payload.len() ==> #[trigger] payload[k] == body[32 + k]
                },
            }
        }),
{
    let body = submessage.body();
    let wire = submessage.wire();
    laws::lemma_body_len(submessage);
    let length = le::saturated(body.len(), 0xffff);
    le::law_first_byte_counts_ones(length);
    let field = le::le_bytes(length, 2);
    assert(wire[2] == field[0] && wire[3] == field[1]);
    assert(wire.skip(4) =~= body);
    assert(1u8 | 4u8 == 5u8) by (bit_vector);
    match submessage {
        SubmessageView::InfoTimestamp { seconds, fraction } => {
            let bits = le::twos_complement_32(seconds as int);
            le::lemma_le_bytes_len(bits, 4);
            le::lemma_le_bytes_len(fraction as nat, 4);
            assert(body.subrange(0, 4) =~= le::le_bytes(bits, 4));
            assert(body.subrange(4, 8) =~= le::le_bytes(fraction as nat, 4));
            lemma_number_places(body, 0, bits);
            lemma_number_places(body, 4, fraction as nat);
        },
        SubmessageView::Data { writer_id, sequence, payload } => {
            message::law_sequence_reads_back(sequence);
            assert(body.subrange(12, 20) =~= message::sequence_wire(sequence as int));
            lemma_sequence_places(body, 12, sequence);
        },
        SubmessageView::DataFrag {
            writer_id,
            sequence,
            starting,
            count,
            size,
            sample_size,
            payload,
        } => {
            message::law_sequence_reads_back(sequence);
            le::lemma_le_bytes_len(starting as nat, 4);
            le::lemma_le_bytes_len(count as nat, 2);
            le::lemma_le_bytes_len(size as nat, 2);
            le::lemma_le_bytes_len(sample_size as nat, 4);
            assert(body.subrange(12, 20) =~= message::sequence_wire(sequence as int));
            assert(body.subrange(20, 24) =~= le::le_bytes(starting as nat, 4));
            assert(body.subrange(24, 26) =~= le::le_bytes(count as nat, 2));
            assert(body.subrange(26, 28) =~= le::le_bytes(size as nat, 2));
            assert(body.subrange(28, 32) =~= le::le_bytes(sample_size as nat, 4));
            lemma_sequence_places(body, 12, sequence);
            lemma_number_places(body, 20, starting as nat);
            lemma_number_places(body, 24, count as nat);
            lemma_number_places(body, 26, size as nat);
            lemma_number_places(body, 28, sample_size as nat);
        },
    }
}

/// Law: a message is accepted by its name and its major version alone. Its
/// GUID prefix is what stands in its place, its submessages are those behind
/// the header, and one refused there is refused whole.
pub proof fn law_message_is_accepted_by_name_and_version(bytes: Seq<u8>)
    ensures
        ({
            let read = message::read_message(bytes);
            let is_rtps_2 = bytes[0] == 'R' as int && bytes[1] == 'T' as int && bytes[2]
                == 'P' as int && bytes[3] == 'S' as int && bytes[4] == 2;
            &&& bytes.len() < 20 ==> read == Err::<MessageView, _>(
                ProtocolError::MessageHeaderCut,
            )
            &&& bytes.len() >= 20 && !is_rtps_2 ==> read == Err::<MessageView, _>(
                ProtocolError::NotRtps,
            )
            &&& bytes.len() >= 20 && is_rtps_2 ==> match message::read_submessages(
                bytes.subrange(20, bytes.len() as int),
            ) {
                Ok(submessages) => read == Ok::<_, ProtocolError>(
                    MessageView { guid_prefix: bytes.subrange(8, 20), submessages },
                ),
                Err(error) => read == Err::<MessageView, _>(error),
            }
        }),
{
    if bytes.len() >= 20 {
        let name = bytes.subrange(0, 4);
        assert(name[0] == bytes[0] && name[1] == bytes[1] && name[2] == bytes[2] && name[3]
            == bytes[3]);
        if bytes[0] == 0x52 && bytes[1] == 0x54 && bytes[2] == 0x50 && bytes[3] == 0x53 {
            assert(name =~= message::protocol_name());
        }
        assert(bytes.skip(20) =~= bytes.subrange(20, bytes.len() as int));
    }
}

/// Law: messages that differ only in their minor version and their vendor
/// read the same.
pub proof fn law_minor_version_and_vendor_do_not_matter(bytes: Seq<u8>, other: Seq<u8>)
    requires
        bytes.len() == other.len(),
        forall|k: int|
            0 <= k < bytes.len() && k != 5 && k != 6 && k != 7 ==> #[trigger] bytes[k]
                == other[k],
    ensures
        message::read_message(bytes) == message::read_message(other),
{
    law_message_is_accepted_by_name_and_version(bytes);
    law_message_is_accepted_by_name_and_version(other);
    if bytes.len() >= 20 {
        assert(bytes.subrange(8, 20) =~= other.subrange(8, 20));
        assert(bytes.subrange(20, bytes.len() as int) =~= other.subrange(20, bytes.len() as int));
    }
}

/// The signed number that a number of four bytes stands for.
pub open spec fn signed(bits: int) -> int {
    if bits < 0x8000_0000 {
        bits
    } else {
        bits - 0x1_0000_0000
    }
}

/// Law: what a submessage holds is read from its places. It is refused where
/// the flag for little-endian is not set, where its body is shorter than its
/// fixed part, and where it is a `DATA` without the flag for data; one of
/// another identifier is skipped.
pub proof fn law_submessage_is_read_from_its_places(id: u8, flags: u8, body: Seq<u8>)
    ensures
        ({
            let read = message::read_submessage(id, flags, body);
            let little = flags % 2 == 1;
            let has_data = flags / 4 % 2 == 1;
            let cut = Err::<Option<SubmessageView>, _>(ProtocolError::SubmessageHeaderCut);
            &&& !little ==> read == Err::<Option<SubmessageView>, _>(ProtocolError::BigEndian)
            &&& little && id == 0x09 && body.len() < 8 ==> read == cut
            &&& little && id == 0x15 && body.len() < 20 ==> read == cut
            &&& little && id == 0x16 && body.len() < 32 ==> read == cut
            &&& little && id == 0x15 && body.len() >= 20 && !has_data ==> read == Err::<
                Option<SubmessageView>,
                _,
            >(ProtocolError::DataWithoutData)
            &&& little && id != 0x09 && id != 0x15 && id != 0x16 ==> read == Ok::<
                _,
                ProtocolError,
            >(None::<SubmessageView>)
            &&& little && id == 0x09 && body.len() >= 8 ==> (read matches Ok(
                Some(SubmessageView::InfoTimestamp { seconds, fraction }),
            ) && {
                &&& seconds == signed(le::u32_at(body, 0))
                &&& fraction == le::u32_at(body, 4)
            })
            &&& little && id == 0x15 && body.len() >= 20 && has_data ==> (read matches Ok(
                Some(SubmessageView::Data { writer_id, sequence, payload }),
            ) && {
                &&& writer_id == seq![body[8], body[9], body[10], body[11]]
                &&& sequence == 0x1_0000_0000 * signed(le::u32_at(body, 12)) + le::u32_at(body, 16)
                &&& payload == body.subrange(20, body.len() as int)
            })
            &&& little && id == 0x16 && body.len() >= 32 ==> (read matches Ok(
                Some(
                    SubmessageView::DataFrag {
                        writer_id,
                        sequence,
                        starting,
                        count,
                        size,
                        sample_size,
                        payload,
                    },
                ),
            ) && {
                &&& writer_id == seq![body[8], body[9], body[10], body[11]]
                &&& sequence == 0x1_0000_0000 * signed(le::u32_at(body, 12)) + le::u32_at(body, 16)
                &&& starting == le::u32_at(body, 20)
                &&& count == le::u16_at(body, 24)
                &&& size == le::u16_at(body, 26)
                &&& sample_size == le::u32_at(body, 28)
                &&& payload == body.subrange(32, body.len() as int)
            })
        }),
{
    assert((flags & 1u8 == 0) == (flags % 2 == 0)) by (bit_vector);
    assert((flags & 4u8 == 0) == (flags / 4 % 2 == 0)) by (bit_vector);
    if body.len() >= 8 {
        le::law_first_byte_is_read_as_ones(body, 0);
        le::law_first_byte_is_read_as_ones(body, 4);
    }
    if body.len() >= 20 {
        let number = body.subrange(12, 20);
        le::law_first_byte_is_read_as_ones(number, 0);
        le::law_first_byte_is_read_as_ones(number, 4);
        assert(body.subrange(8, 12) =~= seq![body[8], body[9], body[10], body[11]]);
    }
    if body.len() >= 32 {
        le::law_first_byte_is_read_as_ones(body, 20);
        le::law_first_byte_is_read_as_ones(body, 24);
        le::law_first_byte_is_read_as_ones(body, 26);
        le::law_first_byte_is_read_as_ones(body, 28);
    }
}

/// Law: of a submessage that carries a sample, or part of one, the first
/// eight bytes of the body do not matter to the reader, nor do flags other
/// than those for little-endian and for data.
pub proof fn law_extra_flags_and_reader_do_not_matter(
    id: u8,
    flags: u8,
    body: Seq<u8>,
    other_flags: u8,
    other_body: Seq<u8>,
)
    requires
        id == 0x15 || id == 0x16,
        flags % 2 == other_flags % 2,
        flags / 4 % 2 == other_flags / 4 % 2,
        body.len() == other_body.len(),
        forall|k: int| 8 <= k < body.len() ==> #[trigger] body[k] == other_body[k],
    ensures
        message::read_submessage(id, flags, body) == message::read_submessage(
            id,
            other_flags,
            other_body,
        ),
{
    law_submessage_is_read_from_its_places(id, flags, body);
    law_submessage_is_read_from_its_places(id, other_flags, other_body);
    if body.len() >= 20 {
        let end = body.len() as int;
        assert(body.subrange(20, end) =~= other_body.subrange(20, end));
        if body.len() >= 32 {
            assert(body.subrange(32, end) =~= other_body.subrange(32, end));
        }
    }
}

/// Law: a run of submessages is read one after the other. Each is as long as
/// its header says, and one that says zero runs to the end; nothing is left
/// over, nothing is read twice, and the first refusal refuses the run.
pub proof fn law_submessages_are_read_in_turn(
    id: u8,
    flags: u8,
    low: u8,
    high: u8,
    after: Seq<u8>,
)
    ensures
        ({
            let read = message::read_submessages(seq![id, flags, low, high] + after);
            let stated = low + 256 * high;
            let length = if stated == 0 {
                after.len() as int
            } else {
                stated
            };
            &&& length > after.len() ==> read == Err::<Seq<SubmessageView>, _>(
                ProtocolError::SubmessageCut,
            )
            &&& length <= after.len() ==> match message::read_submessage(
                id,
                flags,
                after.subrange(0, length),
            ) {
                Err(error) => read == Err::<Seq<SubmessageView>, _>(error),
                Ok(first) => match message::read_submessages(
                    after.subrange(length, after.len() as int),
                ) {
                    Err(error) => read == Err::<Seq<SubmessageView>, _>(error),
                    Ok(following) => read matches Ok(all) && match first {
                        Some(submessage) => all == seq![submessage] + following,
                        None => all == following,
                    },
                },
            }
        }),
{
    let run = seq![id, flags, low, high] + after;
    le::law_first_byte_is_read_as_ones(run, 2);
    let length = message::body_length(run) as int;
    if length <= after.len() {
        assert(run.subrange(4, 4 + length) =~= after.subrange(0, length));
        assert(run.skip(4 + length) =~= after.subrange(length, after.len() as int));
    }
}

/// Law: a run of no bytes holds no submessage, and fewer bytes than a
/// submessage's header has are refused.
pub proof fn law_cut_header_is_refused(rest: Seq<u8>)
    ensures
        rest.len() == 0 ==> message::read_submessages(rest) == Ok::<_, ProtocolError>(
            Seq::<SubmessageView>::empty(),
        ),
        0 < rest.len() < 4 ==> message::read_submessages(rest) == Err::<Seq<SubmessageView>, _>(
            ProtocolError::SubmessageHeaderCut,
        ),
{
}

/// Law: what a message holds is what its fields hold, each of them.
pub proof fn law_view_keeps_every_field(message: Message, at: int)
    requires
        0 <= at < message.submessages@.len(),
    ensures
        message@.guid_prefix == message.guid_prefix@,
        message@.submessages.len() == message.submessages@.len(),
        match message.submessages@[at] {
            Submessage::InfoTimestamp { seconds, fraction } => message@.submessages[at] == (
            SubmessageView::InfoTimestamp { seconds, fraction }),
            Submessage::Data { writer_id, sequence, payload } => message@.submessages[at] == (
            SubmessageView::Data { writer_id: writer_id@, sequence, payload: payload@ }),
            Submessage::DataFrag {
                writer_id,
                sequence,
                starting,
                count,
                size,
                sample_size,
                payload,
            } => message@.submessages[at] == (SubmessageView::DataFrag {
                writer_id: writer_id@,
                sequence,
                starting,
                count,
                size,
                sample_size,
                payload: payload@,
            }),
        },
{
}

/// Law: decoding undoes encoding. A message whose submessages are no longer
/// than their length fields can say is read from the bytes that it is written
/// as.
pub proof fn law_decoding_undoes_encoding(
    message: Message,
    written: Vec<u8>,
    bytes: &[u8],
    read: Result<Message, ProtocolError>,
)
    requires
        message@.fits(),
        call_ensures(Message::encode, (&message,), written),
        bytes@ == written@,
        call_ensures(Message::decode, (bytes,), read),
    ensures
        read matches Ok(found) && found@ == message@,
{
    assert forall|k: int| 0 <= k < message@.submessages.len() implies (
    #[trigger] message@.submessages[k]).well_formed() by {
        assert(message@.submessages[k] == message.submessages@[k]@);
    }
    laws::law_message_reads_back(message@);
}

} // verus!
