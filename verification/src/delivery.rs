//! From a writer to a reader: what is written is what is read.

use vstd::prelude::*;

use crate::error::ProtocolError;
use crate::reader;
use crate::reader::{ReadingView, ReceivedView, StepView};
use crate::rtps::cdr;
use crate::rtps::laws;
use crate::rtps::message;
use crate::rtps::message::{MessageView, SubmessageView, WRITER_WITH_KEY};
use crate::rtps::pieces;
use crate::rtps::reassembly;
use crate::rtps::reassembly::Partial;
use crate::rtps::sample;
use crate::text;
use crate::transport;

verus! {

/// What the reader comes to when it is given `received` in turn, up to the
/// first that makes it stop.
pub open spec fn listened(reading: ReadingView, received: Seq<ReceivedView>) -> StepView
    decreases received.len(),
{
    if received.len() == 0 {
        StepView::Again
    } else {
        let (later, step) = reader::stepped(reading, received[0]);
        if step == StepView::Again {
            listened(later, received.drop_first())
        } else {
            step
        }
    }
}

/// Each of the numbers below `count` stands in `order`, once or more often.
pub open spec fn has_all(order: Seq<int>, count: nat) -> bool {
    forall|index: int| 0 <= index < count ==> #[trigger] order.contains(index)
}

/// Where in `order` the number stands with which, for the first time, all
/// numbers below `count` have come.
pub open spec fn completed_at(order: Seq<int>, count: nat) -> int
    decreases order.len(),
{
    if order.len() > 0 && has_all(order.drop_last(), count) {
        completed_at(order.drop_last(), count)
    } else {
        order.len() - 1
    }
}

/// `datagrams` as they come in from `origins`, in the given order.
pub open spec fn incoming(
    datagrams: Seq<Seq<u8>>,
    order: Seq<int>,
    origins: Seq<Seq<char>>,
) -> Seq<ReceivedView> {
    Seq::new(
        order.len(),
        |k: int| ReceivedView::Datagram { origin_uri: origins[k], bytes: datagrams[order[k]] },
    )
}

/// The sample `sequence` is not among those of which fragments have come.
pub open spec fn is_new_to(sequence: i64, reading: ReadingView) -> bool {
    match reading.under_way {
        Some(partial) => partial.sequence != sequence,
        None => true,
    }
}

/// The step that a message of a timestamp and one more submessage makes.
proof fn lemma_one_submessage(
    reading: ReadingView,
    origin: Seq<char>,
    sent: MessageView,
    submessage: SubmessageView,
)
    requires
        sent.submessages == seq![sample::stamp(), submessage],
        message::read_message(sent.wire()) == Ok::<_, ProtocolError>(sent),
    ensures
        ({
            let (under_way, whole) = reassembly::taken(reading.under_way, submessage);
            reader::stepped(
                reading,
                ReceivedView::Datagram { origin_uri: origin, bytes: sent.wire() },
            ) == (
                ReadingView { under_way, first: false },
                match whole {
                    Err(error) => StepView::Refused(error),
                    Ok(None) => StepView::Again,
                    Ok(Some(serialized)) => reader::arrival(
                        origin,
                        sent.guid_prefix,
                        submessage,
                        serialized,
                    ),
                },
            )
        }),
{
    reveal_with_fuel(reader::scanned, 3);
    let all = sent.submessages;
    assert(all.drop_first() =~= seq![submessage]);
    assert(all.drop_first().drop_first() =~= Seq::empty());
}

/// What completes a part of `order` is what completes a longer one.
proof fn lemma_completed_at(order: Seq<int>, numbers: nat, count: int, end: int)
    requires
        0 <= count < end <= order.len(),
        !has_all(order.take(count), numbers),
        has_all(order.take(count + 1), numbers),
    ensures
        has_all(order.take(end), numbers),
        completed_at(order.take(end), numbers) == count,
    decreases end - count,
{
    assert(order.take(end).drop_last() =~= order.take(end - 1));
    if count + 1 < end {
        lemma_completed_at(order, numbers, count, end - 1);
        assert forall|index: int| 0 <= index < numbers implies #[trigger] order.take(
            end,
        ).contains(index) by {
            let earlier = order.take(end - 1);
            assert(earlier.contains(index));
            let k = choose|k: int| 0 <= k < earlier.len() && earlier[k] == index;
            assert(order.take(end)[k] == index);
        }
    }
}

/// The first `count` runs of `order` have come, and no byte of another.
spec fn has_come(
    partial: Partial,
    sequence: i64,
    serialized: Seq<u8>,
    order: Seq<int>,
    count: int,
) -> bool {
    &&& partial.sequence == sequence
    &&& partial.bytes.len() == serialized.len()
    &&& partial.came.len() == serialized.len()
    &&& forall|i: int|
        0 <= i < serialized.len() ==> #[trigger] partial.came[i] == order.take(count).contains(
            i / 64_512,
        )
    &&& forall|i: int|
        0 <= i < serialized.len() && #[trigger] partial.came[i] ==> partial.bytes[i]
            == serialized[i]
}

/// One more run comes: the sample is whole when each has come, and not
/// before.
proof fn lemma_run_comes(
    under_way: Option<Partial>,
    writer_id: Seq<u8>,
    sequence: i64,
    serialized: Seq<u8>,
    order: Seq<int>,
    count: int,
)
    requires
        sample::MAX_DATA_PAYLOAD < serialized.len() <= 0xffff_ffff,
        0 <= count < order.len(),
        0 <= order[count] < sample::run_count(serialized.len()),
        has_come(
            reassembly::sample_of(under_way, sequence, serialized.len() as u32),
            sequence,
            serialized,
            order,
            count,
        ),
    ensures
        ({
            let run = sample::fragments(writer_id, sequence, serialized, order[count]);
            let (later, whole) = reassembly::taken(under_way, run);
            if has_all(order.take(count + 1), sample::run_count(serialized.len())) {
                whole == Ok::<_, ProtocolError>(Some(serialized))
            } else {
                &&& whole == Ok::<_, ProtocolError>(None::<Seq<u8>>)
                &&& has_come(
                    reassembly::sample_of(later, sequence, serialized.len() as u32),
                    sequence,
                    serialized,
                    order,
                    count + 1,
                )
            }
        }),
{
    let runs = sample::run_count(serialized.len());
    let index = order[count];
    let partial = reassembly::sample_of(under_way, sequence, serialized.len() as u32);
    let payload = sample::run_of(serialized, index);
    laws::lemma_runs(serialized, index);
    sample::lemma_run_numbers(serialized.len(), index);
    let starting = (index * 63 + 1) as u32;
    let at = reassembly::place_of(starting, sample::FRAGMENT_SIZE);
    assert(at == index * 64_512) by (nonlinear_arith)
        requires
            at == (starting - 1) * sample::FRAGMENT_SIZE,
            starting == index * 63 + 1,
            sample::FRAGMENT_SIZE == 1024,
    ;
    let bytes = reassembly::overwritten(partial.bytes, at, payload);
    let came = reassembly::also_came(partial.came, at, payload.len());
    let (earlier, later) = (order.take(count), order.take(count + 1));
    assert forall|number: int| #[trigger]
        later.contains(number) == (earlier.contains(number) || number == index) by {
        if earlier.contains(number) {
            let k = choose|k: int| 0 <= k < earlier.len() && earlier[k] == number;
            assert(later[k] == number);
        }
        if number == index {
            assert(later[count] == number);
        }
        if later.contains(number) {
            let k = choose|k: int| 0 <= k < later.len() && later[k] == number;
            if k < count {
                assert(earlier[k] == number);
            }
        }
    }
    assert forall|i: int| 0 <= i < serialized.len() implies #[trigger] came[i] == later.contains(
        i / 64_512,
    ) by {
        assert(partial.came[i] == earlier.contains(i / 64_512));
        assert(at <= i < at + payload.len() <==> i / 64_512 == index);
    }
    assert forall|i: int| 0 <= i < serialized.len() && #[trigger] came[i] implies bytes[i]
        == serialized[i] by {
        if !(at <= i < at + payload.len()) {
            assert(partial.came[i]);
        }
    }
    if has_all(later, runs) {
        assert forall|i: int| 0 <= i < came.len() implies came[i] by {
            assert(later.contains(i / 64_512));
        }
        assert forall|i: int| 0 <= i < bytes.len() implies bytes[i] == serialized[i] by {
            assert(came[i]);
        }
        assert(bytes =~= serialized);
    }
    if reassembly::all_came(came) {
        assert forall|number: int| 0 <= number < runs implies #[trigger] later.contains(number) by {
            laws::lemma_runs(serialized, number);
            assert(came[number * 64_512]);
        }
    }
}

/// The runs that are still to come make the sample whole when each has come.
proof fn lemma_rest_comes(
    reading: ReadingView,
    guid_prefix: Seq<u8>,
    sequence: i64,
    bytes: Seq<u8>,
    order: Seq<int>,
    origins: Seq<Seq<char>>,
    count: int,
    end: int,
)
    requires
        guid_prefix.len() == 12,
        sample::MAX_DATA_PAYLOAD < cdr::serialized(bytes).len() <= 0xffff_ffff,
        forall|k: int|
            0 <= k < order.len() ==> 0 <= #[trigger] order[k] < sample::run_count(
                cdr::serialized(bytes).len(),
            ),
        0 <= count <= end <= order.len(),
        !has_all(order.take(count), sample::run_count(cdr::serialized(bytes).len())),
        has_come(
            reassembly::sample_of(
                reading.under_way,
                sequence,
                cdr::serialized(bytes).len() as u32,
            ),
            sequence,
            cdr::serialized(bytes),
            order,
            count,
        ),
    ensures
        ({
            let datagrams = transport::datagrams(guid_prefix, sequence, bytes);
            let all = incoming(datagrams, order, origins);
            listened(reading, all.subrange(count, end)) == if has_all(
                order.take(end),
                datagrams.len(),
            ) {
                StepView::Taken {
                    origin_uri: text::origin_text(
                        origins[completed_at(order.take(end), datagrams.len())],
                        guid_prefix,
                        WRITER_WITH_KEY@,
                        sequence as int,
                    ),
                    bytes,
                }
            } else {
                StepView::Again
            }
        }),
    decreases end - count,
{
    let writer_id = WRITER_WITH_KEY@;
    let serialized = cdr::serialized(bytes);
    let runs = sample::run_count(serialized.len());
    let messages = sample::sample_messages(guid_prefix, writer_id, sequence, serialized);
    let all = incoming(transport::datagrams(guid_prefix, sequence, bytes), order, origins);
    if count < end {
        let index = order[count];
        let sent = messages[index];
        let run = sample::fragments(writer_id, sequence, serialized, index);
        laws::law_sample_messages_fit_and_read_back(
            guid_prefix,
            writer_id,
            sequence,
            serialized,
            index,
        );
        lemma_one_submessage(reading, origins[count], sent, run);
        lemma_run_comes(reading.under_way, writer_id, sequence, serialized, order, count);
        assert(all[count] == ReceivedView::Datagram {
            origin_uri: origins[count],
            bytes: sent.wire(),
        });
        let part = all.subrange(count, end);
        assert(part[0] == all[count]);
        assert(part.drop_first() =~= all.subrange(count + 1, end));
        if has_all(order.take(count + 1), runs) {
            lemma_completed_at(order, runs, count, end);
            cdr::law_serialized_reads_back(bytes);
        } else {
            let later = reader::stepped(reading, all[count]).0;
            lemma_rest_comes(
                later,
                guid_prefix,
                sequence,
                bytes,
                order,
                origins,
                count + 1,
                end,
            );
        }
    }
}

/// Law: a sample that is written is read whole. Its datagrams may come in
/// any order, and each as often as it likes, to a reader to which the sample
/// is new. The reader waits until each has come; with the first datagram with
/// which this is so it has the bytes that were written, from the writer and
/// with the number that they were written under, and stops. The sample,
/// serialized, is no larger than four bytes can count.
pub proof fn law_what_is_written_is_read(
    reading: ReadingView,
    guid_prefix: Seq<u8>,
    sequence: i64,
    bytes: Seq<u8>,
    order: Seq<int>,
    origins: Seq<Seq<char>>,
)
    requires
        guid_prefix.len() == 12,
        cdr::serialized(bytes).len() <= 0xffff_ffff,
        is_new_to(sequence, reading),
        forall|k: int|
            0 <= k < order.len() ==> 0 <= #[trigger] order[k] < transport::datagrams(
                guid_prefix,
                sequence,
                bytes,
            ).len(),
        origins.len() == order.len(),
    ensures
        ({
            let datagrams = transport::datagrams(guid_prefix, sequence, bytes);
            listened(reading, incoming(datagrams, order, origins)) == if has_all(
                order,
                datagrams.len(),
            ) {
                StepView::Taken {
                    origin_uri: text::origin_text(
                        origins[completed_at(order, datagrams.len())],
                        guid_prefix,
                        WRITER_WITH_KEY@,
                        sequence as int,
                    ),
                    bytes,
                }
            } else {
                StepView::Again
            }
        }),
{
    let writer_id = WRITER_WITH_KEY@;
    let serialized = cdr::serialized(bytes);
    let messages = sample::sample_messages(guid_prefix, writer_id, sequence, serialized);
    let datagrams = transport::datagrams(guid_prefix, sequence, bytes);
    let all = incoming(datagrams, order, origins);
    let end = order.len() as int;
    assert(order.take(end) =~= order);
    assert(!has_all(order.take(0), datagrams.len())) by {
        sample::lemma_run_numbers(serialized.len(), 0);
        assert(!order.take(0).contains(0));
    }
    if serialized.len() <= sample::MAX_DATA_PAYLOAD {
        if end > 0 {
            let whole = SubmessageView::Data { writer_id, sequence, payload: serialized };
            laws::law_sample_messages_fit_and_read_back(
                guid_prefix,
                writer_id,
                sequence,
                serialized,
                0,
            );
            cdr::law_serialized_reads_back(bytes);
            lemma_one_submessage(reading, origins[0], messages[0], whole);
            assert(order[0] == 0);
            assert(all[0] == ReceivedView::Datagram {
                origin_uri: origins[0],
                bytes: messages[0].wire(),
            });
            assert(order.take(1)[0] == 0);
            lemma_completed_at(order, 1, 0, end);
        }
    } else {
        let fresh = reassembly::nothing_of(sequence, serialized.len() as u32);
        assert(has_come(fresh, sequence, serialized, order, 0));
        lemma_rest_comes(reading, guid_prefix, sequence, bytes, order, origins, 0, end);
        assert(all.subrange(0, end) =~= all);
    }
}

/// Law: a reader that has stopped leaves what comes later, and one that has
/// not goes on with it.
pub proof fn law_what_comes_later_changes_nothing(
    reading: ReadingView,
    received: Seq<ReceivedView>,
    later: Seq<ReceivedView>,
)
    requires
        listened(reading, received) !is Again,
    ensures
        listened(reading, received + later) == listened(reading, received),
    decreases received.len(),
{
    if received.len() > 0 {
        let all = received + later;
        assert(all[0] == received[0]);
        assert(all.drop_first() =~= received.drop_first() + later);
        let (next, step) = reader::stepped(reading, received[0]);
        if step == StepView::Again {
            law_what_comes_later_changes_nothing(next, received.drop_first(), later);
        }
    }
}

/// Law: it does not matter to a reader whether submessages come in one
/// message or in two, one behind the other from the same place.
pub proof fn law_one_message_is_as_good_as_two(
    reading: ReadingView,
    origin_uri: Seq<char>,
    guid_prefix: Seq<u8>,
    earlier: Seq<SubmessageView>,
    later: Seq<SubmessageView>,
    whole: Seq<u8>,
    first: Seq<u8>,
    second: Seq<u8>,
)
    requires
        message::read_message(whole) == Ok::<_, ProtocolError>(
            MessageView { guid_prefix, submessages: earlier + later },
        ),
        message::read_message(first) == Ok::<_, ProtocolError>(
            MessageView { guid_prefix, submessages: earlier },
        ),
        message::read_message(second) == Ok::<_, ProtocolError>(
            MessageView { guid_prefix, submessages: later },
        ),
    ensures
        listened(reading, seq![ReceivedView::Datagram { origin_uri, bytes: whole }]) == listened(
            reading,
            seq![
                ReceivedView::Datagram { origin_uri, bytes: first },
                ReceivedView::Datagram { origin_uri, bytes: second },
            ],
        ),
{
    reveal_with_fuel(listened, 3);
    reader::law_scan_goes_on_where_it_left_off(
        reading.under_way,
        origin_uri,
        guid_prefix,
        earlier,
        later,
    );
    let one = seq![ReceivedView::Datagram { origin_uri, bytes: whole }];
    let two = seq![
        ReceivedView::Datagram { origin_uri, bytes: first },
        ReceivedView::Datagram { origin_uri, bytes: second },
    ];
    assert(one.drop_first() =~= Seq::empty());
    assert(two.drop_first() =~= seq![two[1]]);
    assert(two.drop_first().drop_first() =~= Seq::empty());
}

/// The submessages of `messages`, one behind the other.
pub open spec fn all_submessages(messages: Seq<MessageView>) -> Seq<SubmessageView>
    decreases messages.len(),
{
    if messages.len() == 0 {
        Seq::empty()
    } else {
        all_submessages(messages.drop_last()) + messages.last().submessages
    }
}

/// Some of the parts of a sample are scanned: the last byte that was missing
/// completes it.
proof fn lemma_scan_of_parts(
    under_way: Option<Partial>,
    origin_uri: Seq<char>,
    guid_prefix: Seq<u8>,
    earlier: Seq<SubmessageView>,
    parts: Seq<SubmessageView>,
    writer_id: Seq<u8>,
    sequence: i64,
    bytes: Seq<u8>,
)
    requires
        cdr::serialized(bytes).len() <= 0xffff_ffff,
        pieces::has_come(under_way, earlier, sequence, cdr::serialized(bytes)),
        !pieces::all_held(earlier, cdr::serialized(bytes)),
        forall|k: int|
            0 <= k < parts.len() ==> pieces::is_part(
                #[trigger] parts[k],
                writer_id,
                sequence,
                cdr::serialized(bytes),
            ),
    ensures
        ({
            let sample = cdr::serialized(bytes);
            let (later, step) = reader::scanned(under_way, origin_uri, guid_prefix, parts);
            if pieces::all_held(earlier + parts, sample) {
                step == (StepView::Taken {
                    origin_uri: text::origin_text(
                        origin_uri,
                        guid_prefix,
                        writer_id,
                        sequence as int,
                    ),
                    bytes,
                })
            } else {
                &&& step == StepView::Again
                &&& pieces::has_come(later, earlier + parts, sequence, sample)
            }
        }),
    decreases parts.len(),
{
    let sample = cdr::serialized(bytes);
    if parts.len() == 0 {
        assert(earlier + parts =~= earlier);
    } else {
        let next = earlier.push(parts[0]);
        let rest = parts.drop_first();
        pieces::lemma_part_comes(under_way, earlier, parts[0], writer_id, sequence, sample);
        assert(next + rest =~= earlier + parts);
        if pieces::all_held(next, sample) {
            cdr::law_serialized_is_padded_to_four(bytes);
            cdr::law_serialized_reads_back(bytes);
            assert forall|place: int| 0 <= place < sample.len() implies #[trigger] pieces::one_holds(
                earlier + parts,
                place,
            ) by {
                assert(pieces::one_holds(next, place));
                let k = choose|k: int|
                    0 <= k < next.len() && #[trigger] pieces::holds(next[k], place);
                assert(pieces::holds((earlier + parts)[k], place));
            }
        } else {
            assert forall|k: int| 0 <= k < rest.len() implies pieces::is_part(
                #[trigger] rest[k],
                writer_id,
                sequence,
                sample,
            ) by {
                assert(rest[k] == parts[k + 1]);
            }
            let later = reassembly::taken(under_way, parts[0]).0;
            lemma_scan_of_parts(
                later,
                origin_uri,
                guid_prefix,
                next,
                rest,
                writer_id,
                sequence,
                bytes,
            );
        }
    }
}

/// Submessages of the first of some messages are among those of all.
proof fn lemma_all_submessages(messages: Seq<MessageView>, count: int)
    requires
        0 <= count < messages.len(),
    ensures
        all_submessages(messages.take(count + 1)) == all_submessages(messages.take(count))
            + messages[count].submessages,
        all_submessages(messages.take(count)).is_prefix_of(all_submessages(messages)),
        all_submessages(messages.take(count + 1)).is_prefix_of(all_submessages(messages)),
    decreases messages.len() - count,
{
    let longer = messages.take(count + 1);
    assert(longer.drop_last() =~= messages.take(count));
    if count + 1 < messages.len() {
        lemma_all_submessages(messages, count + 1);
    } else {
        assert(longer =~= messages);
    }
    let (shorter, all) = (all_submessages(messages.take(count)), all_submessages(messages));
    assert(shorter =~= all.subrange(0, shorter.len() as int)) by {
        let between = all_submessages(longer);
        assert(between =~= all.subrange(0, between.len() as int));
        assert(shorter =~= between.subrange(0, shorter.len() as int));
    }
}

/// A byte that the first of some submessages hold, all of them do.
proof fn lemma_held_by_more(
    first: Seq<SubmessageView>,
    all: Seq<SubmessageView>,
    sample: Seq<u8>,
)
    requires
        first.is_prefix_of(all),
        pieces::all_held(first, sample),
    ensures
        pieces::all_held(all, sample),
{
    assert forall|place: int| 0 <= place < sample.len() implies #[trigger] pieces::one_holds(
        all,
        place,
    ) by {
        assert(pieces::one_holds(first, place));
        let k = choose|k: int| 0 <= k < first.len() && #[trigger] pieces::holds(first[k], place);
        assert(all[k] == first[k]);
        assert(pieces::holds(all[k], place));
    }
}

/// The messages from number `count` on make the sample whole with the last of
/// its bytes.
#[verifier::rlimit(40)]
#[verifier::spinoff_prover]
proof fn lemma_rest_of_messages(
    reading: ReadingView,
    guid_prefix: Seq<u8>,
    writer_id: Seq<u8>,
    sequence: i64,
    bytes: Seq<u8>,
    messages: Seq<MessageView>,
    datagrams: Seq<Seq<u8>>,
    origins: Seq<Seq<char>>,
    count: int,
)
    requires
        cdr::serialized(bytes).len() <= 0xffff_ffff,
        datagrams.len() == messages.len(),
        origins.len() == messages.len(),
        forall|k: int|
            0 <= k < messages.len() ==> message::read_message(#[trigger] datagrams[k]) == Ok::<
                _,
                ProtocolError,
            >(messages[k]) && messages[k].guid_prefix == guid_prefix,
        forall|k: int|
            0 <= k < all_submessages(messages).len() ==> pieces::is_part(
                #[trigger] all_submessages(messages)[k],
                writer_id,
                sequence,
                cdr::serialized(bytes),
            ),
        0 <= count < messages.len(),
        !pieces::all_held(all_submessages(messages.drop_last()), cdr::serialized(bytes)),
        pieces::has_come(
            reading.under_way,
            all_submessages(messages.take(count)),
            sequence,
            cdr::serialized(bytes),
        ),
    ensures
        listened(
            reading,
            datagrams_from(datagrams, origins).skip(count),
        ) == if pieces::all_held(all_submessages(messages), cdr::serialized(bytes)) {
            StepView::Taken {
                origin_uri: text::origin_text(
                    origins.last(),
                    guid_prefix,
                    writer_id,
                    sequence as int,
                ),
                bytes,
            }
        } else {
            StepView::Again
        },
    decreases messages.len() - count,
{
    let sample = cdr::serialized(bytes);
    let received = datagrams_from(datagrams, origins);
    let earlier = all_submessages(messages.take(count));
    let next = all_submessages(messages.take(count + 1));
    let all = all_submessages(messages);
    let last = messages.len() - 1;
    let parts = messages[count].submessages;
    lemma_all_submessages(messages, count);
    assert(messages.take(last) =~= messages.drop_last());
    assert forall|k: int| 0 <= k < parts.len() implies pieces::is_part(
        #[trigger] parts[k],
        writer_id,
        sequence,
        sample,
    ) by {
        assert(next[earlier.len() + k] == parts[k]);
        assert(all[earlier.len() + k] == parts[k]);
    }
    lemma_prefixes(messages, count, last);
    if pieces::all_held(earlier, sample) {
        lemma_held_by_more(earlier, all_submessages(messages.take(last)), sample);
    }
    lemma_scan_of_parts(
        reading.under_way,
        origins[count],
        guid_prefix,
        earlier,
        parts,
        writer_id,
        sequence,
        bytes,
    );
    assert(message::read_message(datagrams[count]) == Ok::<_, ProtocolError>(messages[count]));
    assert(received.skip(count)[0] == ReceivedView::Datagram {
        origin_uri: origins[count],
        bytes: datagrams[count],
    });
    assert(received.skip(count).drop_first() =~= received.skip(count + 1));
    if count < last {
        lemma_prefixes(messages, count + 1, last);
        if pieces::all_held(next, sample) {
            lemma_held_by_more(next, all_submessages(messages.take(last)), sample);
        }
        lemma_rest_of_messages(
            reader::stepped(reading, received[count]).0,
            guid_prefix,
            writer_id,
            sequence,
            bytes,
            messages,
            datagrams,
            origins,
            count + 1,
        );
    } else {
        assert(messages.take(count + 1) =~= messages);
        assert(received.skip(count + 1) =~= Seq::empty());
    }
}

/// The submessages of fewer messages stand at the start of those of more.
proof fn lemma_prefixes(messages: Seq<MessageView>, fewer: int, more: int)
    requires
        0 <= fewer <= more <= messages.len(),
    ensures
        all_submessages(messages.take(fewer)).is_prefix_of(all_submessages(messages.take(more))),
{
    let part = messages.take(more);
    if fewer < more {
        lemma_all_submessages(part, fewer);
        assert(part.take(fewer) =~= messages.take(fewer));
    } else {
        let same = all_submessages(part);
        assert(same =~= same.subrange(0, same.len() as int));
    }
}

/// `datagrams` as they come in, each from its origin.
pub open spec fn datagrams_from(
    datagrams: Seq<Seq<u8>>,
    origins: Seq<Seq<char>>,
) -> Seq<ReceivedView> {
    Seq::new(
        datagrams.len(),
        |k: int| ReceivedView::Datagram { origin_uri: origins[k], bytes: datagrams[k] },
    )
}

/// Law: a sample is read however a writer cuts it into fragments and groups
/// these into submessages and messages, in whatever order and as often as
/// they come. The reader waits while a byte is missing, and has the sample
/// with the datagram with which the last one comes. `messages` are what
/// `datagrams` read as, they hold timestamps and fragments of the sample, and
/// those before the last leave a byte out.
pub proof fn law_sample_is_read_however_it_is_grouped(
    reading: ReadingView,
    guid_prefix: Seq<u8>,
    writer_id: Seq<u8>,
    sequence: i64,
    bytes: Seq<u8>,
    messages: Seq<MessageView>,
    datagrams: Seq<Seq<u8>>,
    origins: Seq<Seq<char>>,
)
    requires
        cdr::serialized(bytes).len() <= 0xffff_ffff,
        is_new_to(sequence, reading),
        messages.len() > 0,
        datagrams.len() == messages.len(),
        origins.len() == messages.len(),
        forall|k: int|
            0 <= k < messages.len() ==> message::read_message(#[trigger] datagrams[k]) == Ok::<
                _,
                ProtocolError,
            >(messages[k]) && messages[k].guid_prefix == guid_prefix,
        forall|k: int|
            0 <= k < all_submessages(messages).len() ==> pieces::is_part(
                #[trigger] all_submessages(messages)[k],
                writer_id,
                sequence,
                cdr::serialized(bytes),
            ),
        !pieces::all_held(all_submessages(messages.drop_last()), cdr::serialized(bytes)),
    ensures
        listened(reading, datagrams_from(datagrams, origins)) == if pieces::all_held(
            all_submessages(messages),
            cdr::serialized(bytes),
        ) {
            StepView::Taken {
                origin_uri: text::origin_text(
                    origins.last(),
                    guid_prefix,
                    writer_id,
                    sequence as int,
                ),
                bytes,
            }
        } else {
            StepView::Again
        },
{
    let received = datagrams_from(datagrams, origins);
    pieces::lemma_nothing_has_come(reading.under_way, sequence, cdr::serialized(bytes));
    assert(messages.take(0) =~= Seq::empty());
    lemma_rest_of_messages(
        reading,
        guid_prefix,
        writer_id,
        sequence,
        bytes,
        messages,
        datagrams,
        origins,
        0,
    );
    assert(received.skip(0) =~= received);
}

} // verus!
