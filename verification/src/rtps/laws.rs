//! What holds of messages and samples as a whole.

use vstd::prelude::*;

use crate::error::ProtocolError;
use crate::le;
use crate::rtps::message;
use crate::rtps::message::{
    MessageView, SubmessageView, DATA, DATA_FRAG, FLAG_DATA, FLAG_ENDIAN, INFO_TS,
};
use crate::rtps::reassembly;
use crate::rtps::reassembly::Partial;
use crate::rtps::sample;
use crate::rtps::sample::MAX_DATAGRAM;

verus! {

/// The flags that this crate writes, bit by bit.
proof fn lemma_flags()
    ensures
        FLAG_ENDIAN & FLAG_ENDIAN != 0,
        (FLAG_ENDIAN | FLAG_DATA) & FLAG_ENDIAN != 0,
        (FLAG_ENDIAN | FLAG_DATA) & FLAG_DATA != 0,
{
    assert(1u8 & 1u8 != 0) by (bit_vector);
    assert((1u8 | 4u8) & 1u8 != 0) by (bit_vector);
    assert((1u8 | 4u8) & 4u8 != 0) by (bit_vector);
}

/// How long the parts of a body are.
pub proof fn lemma_body_len(submessage: SubmessageView)
    requires
        submessage.well_formed(),
    ensures
        match submessage {
            SubmessageView::InfoTimestamp { .. } => submessage.body().len() == 8,
            SubmessageView::Data { payload, .. } => submessage.body().len() == 20 + payload.len(),
            SubmessageView::DataFrag { payload, .. } => submessage.body().len() == 32
                + payload.len(),
        },
        submessage.wire().len() == 4 + submessage.body().len(),
{
    le::lemma_le_bytes_len(le::saturated(submessage.body().len(), 0xffff), 2);
    match submessage {
        SubmessageView::InfoTimestamp { seconds, fraction } => {
            le::lemma_le_bytes_len(le::twos_complement_32(seconds as int), 4);
            le::lemma_le_bytes_len(fraction as nat, 4);
        },
        SubmessageView::Data { sequence, .. } => {
            message::law_sequence_reads_back(sequence);
        },
        SubmessageView::DataFrag { sequence, starting, count, size, sample_size, .. } => {
            message::law_sequence_reads_back(sequence);
            le::lemma_le_bytes_len(starting as nat, 4);
            le::lemma_le_bytes_len(count as nat, 2);
            le::lemma_le_bytes_len(size as nat, 2);
            le::lemma_le_bytes_len(sample_size as nat, 4);
        },
    }
}

/// Law: a submessage reads back from its identifier, flags and body.
pub proof fn law_submessage_reads_back(submessage: SubmessageView)
    requires
        submessage.well_formed(),
    ensures
        message::read_submessage(submessage.id(), submessage.flags(), submessage.body()) == Ok::<
            _,
            ProtocolError,
        >(Some(submessage)),
{
    lemma_flags();
    lemma_body_len(submessage);
    let body = submessage.body();
    match submessage {
        SubmessageView::InfoTimestamp { seconds, fraction } => {
            let bits = le::twos_complement_32(seconds as int);
            le::lemma_le_bytes_len(bits, 4);
            le::law_twos_complement_reads_back(seconds as int);
            le::law_le_reads_back(bits);
            le::law_le_reads_back(fraction as nat);
            assert(body.subrange(0, 4) =~= le::le_bytes(bits, 4));
            assert(body.subrange(4, 8) =~= le::le_bytes(fraction as nat, 4));
        },
        SubmessageView::Data { writer_id, sequence, payload } => {
            message::law_sequence_reads_back(sequence);
            assert(body.subrange(8, 12) =~= writer_id);
            assert(body.subrange(12, 20) =~= message::sequence_wire(sequence as int));
            assert(body.skip(20) =~= payload);
        },
        SubmessageView::DataFrag {
            writer_id,
            sequence,
            starting,
            count,
            size,
            sample_size,
            payload,
        } => {
            message::law_sequence_reads_back(sequence);
            le::lemma_le_bytes_len(starting as nat, 4);
            le::lemma_le_bytes_len(count as nat, 2);
            le::lemma_le_bytes_len(size as nat, 2);
            le::lemma_le_bytes_len(sample_size as nat, 4);
            le::law_le_reads_back(starting as nat);
            le::law_le_reads_back(count as nat);
            le::law_le_reads_back(size as nat);
            le::law_le_reads_back(sample_size as nat);
            assert(body.subrange(8, 12) =~= writer_id);
            assert(body.subrange(12, 20) =~= message::sequence_wire(sequence as int));
            assert(body.subrange(20, 24) =~= le::le_bytes(starting as nat, 4));
            assert(body.subrange(24, 26) =~= le::le_bytes(count as nat, 2));
            assert(body.subrange(26, 28) =~= le::le_bytes(size as nat, 2));
            assert(body.subrange(28, 32) =~= le::le_bytes(sample_size as nat, 4));
            assert(body.skip(32) =~= payload);
        },
    }
}

/// A header and a body of its length at the start of a run of submessages.
proof fn lemma_first_of_run(id: u8, flags: u8, body: Seq<u8>, rest: Seq<u8>)
    requires
        0 < body.len() <= 0xffff,
    ensures
        ({
            let run = seq![id, flags] + le::le_bytes(body.len(), 2) + body + rest;
            message::read_submessages(run) == match message::read_submessage(id, flags, body) {
                Err(error) => Err(error),
                Ok(Some(submessage)) => message::behind(
                    seq![submessage],
                    message::read_submessages(rest),
                ),
                Ok(None) => message::read_submessages(rest),
            }
        }),
{
    let run = seq![id, flags] + le::le_bytes(body.len(), 2) + body + rest;
    le::lemma_le_bytes_len(body.len(), 2);
    le::law_le_reads_back(body.len());
    assert(run.subrange(2, 4) =~= le::le_bytes(body.len(), 2));
    assert(message::body_length(run) == body.len());
    assert(run.subrange(4, 4 + body.len() as int) =~= body);
    assert(run.skip(4 + body.len() as int) =~= rest);
}

/// Submessages at the start of a run are read, and then what follows them.
proof fn lemma_run_is_read(earlier: Seq<SubmessageView>, rest: Seq<u8>)
    requires
        forall|k: int|
            0 <= k < earlier.len() ==> (#[trigger] earlier[k]).well_formed() && earlier[k].fits(),
    ensures
        message::read_submessages(message::submessages_wire(earlier) + rest) == message::behind(
            earlier,
            message::read_submessages(rest),
        ),
    decreases earlier.len(),
{
    if earlier.len() == 0 {
        assert(message::submessages_wire(earlier) + rest =~= rest);
        if let Ok(following) = message::read_submessages(rest) {
            assert(earlier + following =~= following);
        }
    } else {
        let submessage = earlier[0];
        let later = earlier.drop_first();
        assert forall|k: int| 0 <= k < later.len() implies (#[trigger] later[k]).well_formed()
            && later[k].fits() by {
            assert(later[k] == earlier[k + 1]);
        }
        lemma_run_is_read(later, rest);
        lemma_body_len(submessage);
        law_submessage_reads_back(submessage);
        let tail = message::submessages_wire(later) + rest;
        lemma_first_of_run(submessage.id(), submessage.flags(), submessage.body(), tail);
        assert(message::submessages_wire(earlier) + rest =~= submessage.wire() + tail);
        if let Ok(following) = message::read_submessages(rest) {
            assert(seq![submessage] + (later + following) =~= earlier + following);
        }
    }
}

/// Law: a submessage that this crate does not read is skipped, whatever it
/// holds and wherever in a message it stands.
pub proof fn law_unknown_submessage_is_skipped(
    earlier: Seq<SubmessageView>,
    id: u8,
    flags: u8,
    body: Seq<u8>,
    rest: Seq<u8>,
)
    requires
        forall|k: int|
            0 <= k < earlier.len() ==> (#[trigger] earlier[k]).well_formed() && earlier[k].fits(),
        id != INFO_TS && id != DATA && id != DATA_FRAG,
        flags & FLAG_ENDIAN != 0,
        0 < body.len() <= 0xffff,
    ensures
        ({
            let unknown = seq![id, flags] + le::le_bytes(body.len(), 2) + body;
            message::read_submessages(message::submessages_wire(earlier) + unknown + rest)
                == message::read_submessages(message::submessages_wire(earlier) + rest)
        }),
{
    let unknown = seq![id, flags] + le::le_bytes(body.len(), 2) + body;
    lemma_run_is_read(earlier, rest);
    lemma_run_is_read(earlier, unknown + rest);
    lemma_first_of_run(id, flags, body, rest);
    assert(message::submessages_wire(earlier) + unknown + rest =~= message::submessages_wire(
        earlier,
    ) + (unknown + rest));
}

/// Law: a length of zero means that the submessage runs to the end.
pub proof fn law_zero_length_runs_to_the_end(id: u8, flags: u8, body: Seq<u8>)
    ensures
        message::read_submessages(seq![id, flags, 0u8, 0u8] + body)
            == match message::read_submessage(id, flags, body) {
            Err(error) => Err(error),
            Ok(Some(submessage)) => Ok(seq![submessage]),
            Ok(None) => Ok(Seq::empty()),
        },
{
    reveal_with_fuel(message::read_submessages, 2);
    let run = seq![id, flags, 0u8, 0u8] + body;
    le::lemma_le_value_unfold(run.subrange(2, 4));
    assert(message::body_length(run) == body.len());
    assert(run.subrange(4, 4 + body.len() as int) =~= body);
    assert(run.skip(4 + body.len() as int) =~= Seq::empty());
    if let Ok(Some(submessage)) = message::read_submessage(id, flags, body) {
        assert(seq![submessage] + Seq::<SubmessageView>::empty() =~= seq![submessage]);
    }
}

/// Law: a message reads back from the bytes that carry it, where each of its
/// submessages is no longer than its length field can say.
pub proof fn law_message_reads_back(sent: MessageView)
    requires
        sent.well_formed(),
        sent.fits(),
    ensures
        message::read_message(sent.wire()) == Ok::<_, ProtocolError>(sent),
{
    let wire = sent.wire();
    let header = message::header_wire(sent.guid_prefix);
    assert(header.len() == 20);
    assert(wire.subrange(0, 4) =~= message::protocol_name());
    assert(wire.subrange(8, 20) =~= sent.guid_prefix);
    assert(wire.skip(20) =~= message::submessages_wire(sent.submessages) + Seq::<u8>::empty());
    lemma_run_is_read(sent.submessages, Seq::empty());
    assert(sent.submessages + Seq::<SubmessageView>::empty() =~= sent.submessages);
}

/// Law: a message cut off inside one of its submessages is refused, however
/// little is missing.
pub proof fn law_cut_message_is_refused(sent: MessageView, cut: int, kept: int)
    requires
        sent.well_formed(),
        sent.fits(),
        0 <= cut < sent.submessages.len(),
        0 < kept < sent.submessages[cut].wire().len(),
    ensures
        ({
            let whole = MessageView {
                guid_prefix: sent.guid_prefix,
                submessages: sent.submessages.take(cut),
            };
            message::read_message(whole.wire() + sent.submessages[cut].wire().take(kept)) == Err::<
                MessageView,
                _,
            >(
                if kept < 4 {
                    ProtocolError::SubmessageHeaderCut
                } else {
                    ProtocolError::SubmessageCut
                },
            )
        }),
{
    let earlier = sent.submessages.take(cut);
    let submessage = sent.submessages[cut];
    let body = submessage.body();
    let rest = submessage.wire().take(kept);
    let bytes = message::header_wire(sent.guid_prefix) + message::submessages_wire(earlier) + rest;
    lemma_body_len(submessage);
    lemma_run_is_read(earlier, rest);
    assert(bytes.subrange(0, 4) =~= message::protocol_name());
    assert(bytes.skip(20) =~= message::submessages_wire(earlier) + rest);
    if kept >= 4 {
        le::lemma_le_bytes_len(body.len(), 2);
        le::law_le_reads_back(body.len());
        assert(rest.subrange(2, 4) =~= le::le_bytes(body.len(), 2));
    }
}

/// Law: bytes that do not start with a header of RTPS 2 are refused.
pub proof fn law_other_bytes_are_refused(bytes: Seq<u8>)
    ensures
        bytes.len() < 20 ==> message::read_message(bytes) == Err::<MessageView, _>(
            ProtocolError::MessageHeaderCut,
        ),
        bytes.len() >= 20 && !(message::protocol_name() + seq![2u8]).is_prefix_of(bytes)
            ==> message::read_message(bytes) == Err::<MessageView, _>(ProtocolError::NotRtps),
{
    let start = message::protocol_name() + seq![2u8];
    if bytes.len() >= 20 && bytes.subrange(0, 4) == message::protocol_name() && bytes[4] == 2 {
        assert(start =~= bytes.subrange(0, 5));
    }
}

/// Law: a submessage that is read is well formed.
pub proof fn law_read_submessages_are_well_formed(rest: Seq<u8>)
    ensures
        message::read_submessages(rest) matches Ok(submessages) ==> forall|k: int|
            0 <= k < submessages.len() ==> (#[trigger] submessages[k]).well_formed(),
    decreases rest.len(),
{
    if rest.len() >= 4 && 4 + message::body_length(rest) <= rest.len() {
        law_read_submessages_are_well_formed(rest.skip(4 + message::body_length(rest) as int));
    }
}

/// Law: a message that is read is well formed, so that it reads the same
/// again once it was written, where its submessages fit.
pub proof fn law_read_message_is_stable(bytes: Seq<u8>)
    ensures
        message::read_message(bytes) matches Ok(read) ==> {
            &&& read.well_formed()
            &&& read.fits() ==> message::read_message(read.wire()) == Ok::<_, ProtocolError>(read)
        },
{
    if bytes.len() >= 20 {
        law_read_submessages_are_well_formed(bytes.skip(20));
    }
    if let Ok(read) = message::read_message(bytes) {
        assert(read.well_formed());
        if read.fits() {
            law_message_reads_back(read);
        }
    }
}

/// What has come of sample `sequence` where `under_way` is: nothing, where
/// that is another sample.
pub open spec fn sample_before(
    under_way: Option<Partial>,
    sequence: i64,
    sample_size: u32,
) -> Partial {
    if under_way is Some && under_way->0.sequence == sequence {
        under_way->0
    } else {
        Partial {
            sequence,
            bytes: Seq::new(sample_size as nat, |k: int| 0u8),
            came: Seq::new(sample_size as nat, |k: int| false),
        }
    }
}

/// `later` has `payload` from `at` on, and is as `earlier` elsewhere.
pub open spec fn changed_in_place(
    earlier: Seq<u8>,
    at: nat,
    payload: Seq<u8>,
    later: Seq<u8>,
) -> bool {
    &&& later.len() == earlier.len()
    &&& forall|k: int| 0 <= k < payload.len() ==> #[trigger] payload[k] == later[at + k]
    &&& forall|k: int|
        0 <= k < later.len() && !(at <= k < at + payload.len()) ==> #[trigger] later[k]
            == earlier[k]
}

/// Law: a fragment belongs to the sample under way where it has its number,
/// else to one of which nothing has come. The place of fragment number
/// `starting` is as many sizes of a fragment into the sample as there are
/// fragments before it. One that is not refused changes its sample in its own
/// place alone: there its bytes stand, and have come. It completes the sample
/// exactly when no byte is left that has not come, and one that is refused
/// leaves the sample as it was.
pub proof fn law_fragment_keeps_its_sample(
    under_way: Option<Partial>,
    writer_id: Seq<u8>,
    sequence: i64,
    starting: u32,
    count: u16,
    size: u16,
    sample_size: u32,
    payload: Seq<u8>,
)
    requires
        under_way matches Some(partial) ==> partial.came.len() == partial.bytes.len(),
    ensures
        ({
            let fragment = SubmessageView::DataFrag {
                writer_id,
                sequence,
                starting,
                count,
                size,
                sample_size,
                payload,
            };
            let partial = sample_before(under_way, sequence, sample_size);
            let at = if starting == 0 {
                0
            } else {
                ((starting - 1) * size) as nat
            };
            let (later, whole) = reassembly::taken(under_way, fragment);
            &&& whole is Err <==> at + payload.len() > partial.bytes.len()
            &&& whole is Err ==> later == Some(partial)
            &&& whole matches Ok(None) ==> later matches Some(later) && {
                &&& changed_in_place(partial.bytes, at, payload, later.bytes)
                &&& later.sequence == sequence
                &&& later.came.len() == later.bytes.len()
                &&& forall|k: int|
                    0 <= k < later.came.len() ==> #[trigger] later.came[k] == (partial.came[k]
                        || at <= k < at + payload.len())
                &&& exists|k: int| 0 <= k < later.came.len() && !#[trigger] later.came[k]
            }
            &&& whole matches Ok(Some(bytes)) ==> {
                &&& changed_in_place(partial.bytes, at, payload, bytes)
                &&& later is None
                &&& forall|k: int|
                    0 <= k < partial.came.len() ==> #[trigger] partial.came[k] || at <= k < at
                        + payload.len()
            }
        }),
{
    let partial = reassembly::sample_of(under_way, sequence, sample_size);
    let at = reassembly::place_of(starting, size);
    let came = reassembly::also_came(partial.came, at, payload.len());
    let before = sample_before(under_way, sequence, sample_size);
    assert(before.bytes =~= partial.bytes && before.came =~= partial.came);
    let fragment = SubmessageView::DataFrag {
        writer_id,
        sequence,
        starting,
        count,
        size,
        sample_size,
        payload,
    };
    let (later, whole) = reassembly::taken(under_way, fragment);
    if let Ok(Some(bytes)) = whole {
        assert forall|k: int| 0 <= k < before.came.len() implies #[trigger] before.came[k] || at
            <= k < at + payload.len() by {
            assert(came[k]);
        }
        assert(changed_in_place(before.bytes, at, payload, bytes));
    } else if whole is Ok {
        let k = choose|k: int| 0 <= k < came.len() && !came[k];
        assert(later->0.came == came);
        assert(!later->0.came[k]);
        assert(changed_in_place(before.bytes, at, payload, later->0.bytes));
    }
}

/// Law: a fragment that completed nothing completes nothing when it comes
/// again at once, and changes nothing.
pub proof fn law_repeated_fragment_changes_nothing(
    under_way: Option<Partial>,
    fragment: SubmessageView,
)
    requires
        fragment is DataFrag,
        reassembly::taken(under_way, fragment).1 == Ok::<_, ProtocolError>(None::<Seq<u8>>),
    ensures
        reassembly::taken(reassembly::taken(under_way, fragment).0, fragment)
            == reassembly::taken(under_way, fragment),
{
    let later = reassembly::taken(under_way, fragment).0->0;
    let (starting, size) = (fragment->starting, fragment->size);
    let payload = fragment->DataFrag_payload;
    let at = reassembly::place_of(starting, size);
    assert(reassembly::overwritten(later.bytes, at, payload) =~= later.bytes);
    assert(reassembly::also_came(later.came, at, payload.len()) =~= later.came);
}

/// What is under way once `submessages` were taken in turn.
pub open spec fn after_all(
    under_way: Option<Partial>,
    submessages: Seq<SubmessageView>,
) -> Option<Partial>
    decreases submessages.len(),
{
    if submessages.len() == 0 {
        under_way
    } else {
        reassembly::taken(after_all(under_way, submessages.drop_last()), submessages.last()).0
    }
}

/// What is under way once `submessages` were taken in turn, from nothing.
pub open spec fn under_way_after(submessages: Seq<SubmessageView>) -> Option<Partial> {
    after_all(None, submessages)
}

/// `submessage` is a fragment of sample `sequence` that has `byte` at `place`
/// of the sample.
pub open spec fn brings(
    submessage: SubmessageView,
    sequence: i64,
    place: int,
    byte: u8,
) -> bool {
    submessage matches SubmessageView::DataFrag { sequence: own, starting, size, payload, .. } && {
        let at = if starting == 0 {
            0
        } else {
            (starting - 1) * size
        };
        own == sequence && at <= place < at + payload.len() && payload[place - at] == byte
    }
}

/// One of `submessages` is a fragment of sample `sequence` that has `byte` at
/// `place` of the sample.
pub open spec fn one_brings(
    submessages: Seq<SubmessageView>,
    sequence: i64,
    place: int,
    byte: u8,
) -> bool {
    exists|k: int|
        0 <= k < submessages.len() && #[trigger] brings(submessages[k], sequence, place, byte)
}

/// What one of `submessages` brings, one of more brings too.
proof fn lemma_brings_with_more(
    submessages: Seq<SubmessageView>,
    sequence: i64,
    place: int,
    byte: u8,
)
    requires
        submessages.len() > 0,
        one_brings(submessages.drop_last(), sequence, place, byte) || brings(
            submessages.last(),
            sequence,
            place,
            byte,
        ),
    ensures
        one_brings(submessages, sequence, place, byte),
{
    let earlier = submessages.drop_last();
    if one_brings(earlier, sequence, place, byte) {
        let k = choose|k: int|
            0 <= k < earlier.len() && #[trigger] brings(earlier[k], sequence, place, byte);
        assert(brings(submessages[k], sequence, place, byte));
    } else {
        assert(brings(submessages[submessages.len() - 1], sequence, place, byte));
    }
}

/// Law: of a sample under way, each byte has its flag, and a byte that has
/// come is one that a fragment of this sample brought.
pub proof fn law_what_came_was_brought(submessages: Seq<SubmessageView>)
    ensures
        under_way_after(submessages) matches Some(partial) ==> {
            &&& partial.came.len() == partial.bytes.len()
            &&& forall|place: int|
                0 <= place < partial.came.len() && #[trigger] partial.came[place] ==> one_brings(
                    submessages,
                    partial.sequence,
                    place,
                    partial.bytes[place],
                )
        },
    decreases submessages.len(),
{
    if submessages.len() > 0 {
        law_what_came_was_brought(submessages.drop_last());
        if let Some(partial) = under_way_after(submessages) {
            assert forall|place: int|
                0 <= place < partial.came.len() && #[trigger] partial.came[place] implies
                one_brings(submessages, partial.sequence, place, partial.bytes[place]) by {
                lemma_brings_with_more(
                    submessages,
                    partial.sequence,
                    place,
                    partial.bytes[place],
                );
            }
        }
    }
}

/// Law: a sample that is put together from fragments holds no byte that did
/// not come: each was brought, in its place, by a fragment of this sample.
pub proof fn law_whole_sample_was_brought(
    submessages: Seq<SubmessageView>,
    sequence: i64,
    bytes: Seq<u8>,
)
    requires
        submessages.len() > 0,
        submessages.last() matches SubmessageView::DataFrag { sequence: own, .. } && own
            == sequence,
        reassembly::taken(under_way_after(submessages.drop_last()), submessages.last()).1
            == Ok::<_, ProtocolError>(Some(bytes)),
    ensures
        forall|place: int|
            0 <= place < bytes.len() ==> one_brings(
                submessages,
                sequence,
                place,
                #[trigger] bytes[place],
            ),
{
    let earlier = under_way_after(submessages.drop_last());
    let last = submessages.last();
    let payload = last->DataFrag_payload;
    let partial = reassembly::sample_of(earlier, sequence, last->sample_size);
    let at = reassembly::place_of(last->starting, last->size);
    let came = reassembly::also_came(partial.came, at, payload.len());
    law_what_came_was_brought(submessages.drop_last());
    assert forall|place: int| 0 <= place < bytes.len() implies one_brings(
        submessages,
        sequence,
        place,
        #[trigger] bytes[place],
    ) by {
        assert(came[place]);
        if at <= place < at + payload.len() {
            assert(brings(last, sequence, place, bytes[place]));
        } else {
            assert(partial.came[place]);
        }
        lemma_brings_with_more(submessages, sequence, place, bytes[place]);
    }
}

/// Law: a `DATA` gives its payload as it is, and a timestamp nothing; neither
/// changes what has come of another sample.
pub proof fn law_data_is_whole_by_itself(
    under_way: Option<Partial>,
    writer_id: Seq<u8>,
    sequence: i64,
    payload: Seq<u8>,
    seconds: i32,
    fraction: u32,
)
    ensures
        reassembly::taken(under_way, SubmessageView::Data { writer_id, sequence, payload }) == (
            under_way,
            Ok::<_, ProtocolError>(Some(payload)),
        ),
        reassembly::taken(under_way, SubmessageView::InfoTimestamp { seconds, fraction }) == (
            under_way,
            Ok::<_, ProtocolError>(None::<Seq<u8>>),
        ),
{
}

/// Law: a fragment of another sample starts over, whatever had come of the
/// sample under way.
pub proof fn law_other_sample_starts_over(
    under_way: Option<Partial>,
    fragment: SubmessageView,
)
    requires
        fragment matches SubmessageView::DataFrag { sequence, .. } && match under_way {
            Some(partial) => partial.sequence != sequence,
            None => true,
        },
    ensures
        reassembly::taken(under_way, fragment) == reassembly::taken(None, fragment),
{
}

/// Where runs of fragments start and end.
pub proof fn lemma_runs(serialized: Seq<u8>, index: int)
    requires
        0 <= index < sample::run_count(serialized.len()),
        serialized.len() > 0,
    ensures
        sample::run_size() == 64_512,
        index * 64_512 < serialized.len(),
        ({
            let run = sample::run_of(serialized, index);
            if index + 1 < sample::run_count(serialized.len()) {
                run == serialized.subrange(index * 64_512, index * 64_512 + 64_512)
                    && (index + 1) * 64_512 < serialized.len()
            } else {
                run == serialized.subrange(index * 64_512, serialized.len() as int)
                    && serialized.len() <= (index + 1) * 64_512
            }
        }),
{
    sample::lemma_run_numbers(serialized.len(), index);
}

/// Law: every message that carries a sample, or a run of its fragments, reads
/// back from its bytes, and its bytes fit one datagram.
pub proof fn law_sample_messages_fit_and_read_back(
    guid_prefix: Seq<u8>,
    writer_id: Seq<u8>,
    sequence: i64,
    serialized: Seq<u8>,
    index: int,
)
    requires
        guid_prefix.len() == 12,
        writer_id.len() == 4,
        0 <= index < sample::sample_messages(
            guid_prefix,
            writer_id,
            sequence,
            serialized,
        ).len(),
    ensures
        ({
            let sent = sample::sample_messages(
                guid_prefix,
                writer_id,
                sequence,
                serialized,
            )[index];
            &&& sent.wire().len() <= MAX_DATAGRAM
            &&& message::read_message(sent.wire()) == Ok::<_, ProtocolError>(sent)
        }),
{
    let sent = sample::sample_messages(guid_prefix, writer_id, sequence, serialized)[index];
    if serialized.len() > sample::MAX_DATA_PAYLOAD {
        lemma_runs(serialized, index);
    }
    assert(sent.submessages.len() == 2);
    let (first, second) = (sent.submessages[0], sent.submessages[1]);
    lemma_body_len(first);
    lemma_body_len(second);
    reveal_with_fuel(message::submessages_wire, 3);
    assert(sent.wire().len() == 20 + first.wire().len() + second.wire().len());
    law_message_reads_back(sent);
}

/// Law: a sample is carried by one `DATA` exactly where the message with it
/// fits one datagram.
pub proof fn law_data_where_it_fits_a_datagram(
    guid_prefix: Seq<u8>,
    writer_id: Seq<u8>,
    sequence: i64,
    serialized: Seq<u8>,
)
    requires
        guid_prefix.len() == 12,
        writer_id.len() == 4,
    ensures
        ({
            let whole = MessageView {
                guid_prefix,
                submessages: seq![
                    sample::stamp(),
                    SubmessageView::Data { writer_id, sequence, payload: serialized },
                ],
            };
            let sent = sample::sample_messages(guid_prefix, writer_id, sequence, serialized);
            &&& whole.wire().len() <= MAX_DATAGRAM ==> sent == seq![whole]
            &&& whole.wire().len() > MAX_DATAGRAM ==> forall|index: int|
                0 <= index < sent.len() ==> (#[trigger] sent[index]).submessages[1] is DataFrag
        }),
{
    let first = sample::stamp();
    let second = SubmessageView::Data { writer_id, sequence, payload: serialized };
    let whole = MessageView { guid_prefix, submessages: seq![first, second] };
    lemma_body_len(first);
    lemma_body_len(second);
    reveal_with_fuel(message::submessages_wire, 3);
    assert(whole.wire().len() == 20 + first.wire().len() + second.wire().len());
}

/// Law: the runs of a sample number its fragments one after the other from
/// one, where four bytes can count the sample.
pub proof fn law_fragments_are_numbered_in_turn(
    writer_id: Seq<u8>,
    sequence: i64,
    serialized: Seq<u8>,
    index: int,
)
    requires
        serialized.len() <= 0xffff_ffff,
        0 <= index < sample::run_count(serialized.len()),
        serialized.len() > 0,
    ensures
        ({
            let runs = sample::run_count(serialized.len());
            let run = sample::fragments(writer_id, sequence, serialized, index);
            let following = sample::fragments(writer_id, sequence, serialized, index + 1);
            &&& index == 0 ==> run->starting == 1
            &&& index + 1 < runs ==> following->starting == run->starting + run->count
            &&& index + 1 == runs ==> run->starting + run->count - 1 == (serialized.len() + 1023)
                / 1024
        }),
{
    lemma_runs(serialized, index);
    sample::lemma_run_numbers(serialized.len(), index);
    sample::lemma_run_numbers(serialized.len(), index + 1);
}

/// Law: a sample that fits is carried by one message, with a timestamp of
/// zero in front of it and as it is.
pub proof fn law_small_sample_is_sent_as_it_is(
    guid_prefix: Seq<u8>,
    writer_id: Seq<u8>,
    sequence: i64,
    serialized: Seq<u8>,
)
    requires
        serialized.len() <= 65_507 - 20 - 12 - 24,
    ensures
        ({
            let sent = sample::sample_messages(guid_prefix, writer_id, sequence, serialized);
            &&& sent.len() == 1
            &&& sent[0].guid_prefix == guid_prefix
            &&& sent[0].submessages.len() == 2
            &&& sent[0].submessages[0] == SubmessageView::InfoTimestamp {
                seconds: 0,
                fraction: 0,
            }
            &&& sent[0].submessages[1] == SubmessageView::Data {
                writer_id,
                sequence,
                payload: serialized,
            }
        }),
{
}

/// Law: a sample that does not fit is cut into runs of 63 fragments of 1024
/// bytes, each in a message of its own behind a timestamp of zero. The runs
/// stand one behind the other in the sample and leave nothing of it out, and
/// each says where it starts, how many fragments it has and how large the
/// sample is, as far as its fields can.
pub proof fn law_large_sample_is_cut_into_runs(
    guid_prefix: Seq<u8>,
    writer_id: Seq<u8>,
    sequence: i64,
    serialized: Seq<u8>,
    index: int,
)
    requires
        serialized.len() > 65_507 - 20 - 12 - 24,
    ensures
        ({
            let sent = sample::sample_messages(guid_prefix, writer_id, sequence, serialized);
            let length = serialized.len() as int;
            let runs = sent.len() as int;
            &&& (runs - 1) * 64_512 < length <= runs * 64_512
            &&& 0 <= index < runs ==> {
                &&& sent[index].guid_prefix == guid_prefix
                &&& sent[index].submessages.len() == 2
                &&& sent[index].submessages[0] == SubmessageView::InfoTimestamp {
                    seconds: 0,
                    fraction: 0,
                }
                &&& sent[index].submessages[1] matches SubmessageView::DataFrag {
                    writer_id: writer,
                    sequence: number,
                    starting,
                    count,
                    size,
                    sample_size,
                    payload,
                }
                &&& writer == writer_id
                &&& number == sequence
                &&& starting == if index * 63 + 1 <= 0xffff_ffff {
                    index * 63 + 1
                } else {
                    0xffff_ffff
                }
                &&& (count - 1) * 1024 < payload.len() <= count * 1024
                &&& size == 1024
                &&& sample_size == if length <= 0xffff_ffff {
                    length
                } else {
                    0xffff_ffff
                }
                &&& payload.len() == if index + 1 < runs {
                    64_512
                } else {
                    length - index * 64_512
                }
                &&& forall|k: int|
                    0 <= k < payload.len() ==> #[trigger] payload[k] == serialized[index * 64_512
                        + k]
            }
        }),
{
    sample::lemma_run_numbers(serialized.len(), index);
    let runs = sample::run_count(serialized.len()) as int;
    if 0 <= index < runs {
        lemma_runs(serialized, index);
        let payload = sample::run_of(serialized, index);
        assert(0 < payload.len() <= 64_512);
    }
}

} // verus!
