//! A sample put together from its fragments, of whatever size.

use vstd::prelude::*;

use crate::error::ProtocolError;
use crate::rtps::laws;
use crate::rtps::message::SubmessageView;
use crate::rtps::reassembly;
use crate::rtps::reassembly::Partial;

verus! {

/// `submessage` carries fragments of `sample`, one or more of them: fragment
/// number one starts where the sample does, and each other one size of a
/// fragment behind the one before it.
pub open spec fn is_piece(
    submessage: SubmessageView,
    writer_id: Seq<u8>,
    sequence: i64,
    sample: Seq<u8>,
) -> bool {
    submessage matches SubmessageView::DataFrag {
        writer_id: writer,
        sequence: number,
        starting,
        size,
        sample_size,
        payload,
        ..
    } && {
        let at = (starting - 1) * size;
        &&& writer == writer_id
        &&& number == sequence
        &&& starting >= 1
        &&& sample_size == sample.len()
        &&& at + payload.len() <= sample.len()
        &&& payload == sample.subrange(at, at + payload.len())
    }
}

/// The byte at `place` of the sample is among those that `submessage`
/// carries.
pub open spec fn holds(submessage: SubmessageView, place: int) -> bool {
    submessage matches SubmessageView::DataFrag { starting, size, payload, .. } && (starting - 1)
        * size <= place < (starting - 1) * size + payload.len()
}

/// The byte at `place` of the sample is among those that `submessages` carry.
pub open spec fn one_holds(submessages: Seq<SubmessageView>, place: int) -> bool {
    exists|k: int| 0 <= k < submessages.len() && #[trigger] holds(submessages[k], place)
}

/// `submessages` carry every byte of the sample, once or more often.
pub open spec fn all_held(submessages: Seq<SubmessageView>, sample: Seq<u8>) -> bool {
    forall|place: int|
        0 <= place < sample.len() ==> #[trigger] one_holds(submessages, place)
}

/// `submessage` is a timestamp, or carries fragments of `sample`.
pub open spec fn is_part(
    submessage: SubmessageView,
    writer_id: Seq<u8>,
    sequence: i64,
    sample: Seq<u8>,
) -> bool {
    submessage is InfoTimestamp || is_piece(submessage, writer_id, sequence, sample)
}

/// What `submessages` carry has come, and nothing else.
pub open spec fn has_come(
    under_way: Option<Partial>,
    submessages: Seq<SubmessageView>,
    sequence: i64,
    sample: Seq<u8>,
) -> bool {
    let partial = reassembly::sample_of(under_way, sequence, sample.len() as u32);
    &&& partial.sequence == sequence
    &&& partial.bytes.len() == sample.len()
    &&& partial.came.len() == sample.len()
    &&& forall|place: int|
        0 <= place < sample.len() ==> #[trigger] partial.came[place] == one_holds(
            submessages,
            place,
        )
    &&& forall|place: int|
        0 <= place < sample.len() && #[trigger] partial.came[place] ==> partial.bytes[place]
            == sample[place]
}

/// What one of `submessages` holds, and what one more does.
pub proof fn lemma_one_more_holds(
    submessages: Seq<SubmessageView>,
    last: SubmessageView,
    place: int,
)
    ensures
        one_holds(submessages.push(last), place) == (one_holds(submessages, place) || holds(
            last,
            place,
        )),
{
    let longer = submessages.push(last);
    if one_holds(submessages, place) {
        let k = choose|k: int|
            0 <= k < submessages.len() && #[trigger] holds(submessages[k], place);
        assert(holds(longer[k], place));
    }
    if holds(last, place) {
        assert(holds(longer[submessages.len() as int], place));
    }
    if one_holds(longer, place) {
        let k = choose|k: int| 0 <= k < longer.len() && #[trigger] holds(longer[k], place);
        if k < submessages.len() {
            assert(holds(submessages[k], place));
        }
    }
}

/// Nothing has come of a sample that is new.
pub proof fn lemma_nothing_has_come(
    under_way: Option<Partial>,
    sequence: i64,
    sample: Seq<u8>,
)
    requires
        sample.len() <= 0xffff_ffff,
        under_way matches Some(partial) ==> partial.sequence != sequence,
    ensures
        has_come(under_way, Seq::empty(), sequence, sample),
{
}

/// One more part comes: it completes the sample exactly when every byte of it
/// has come.
pub proof fn lemma_part_comes(
    under_way: Option<Partial>,
    earlier: Seq<SubmessageView>,
    part: SubmessageView,
    writer_id: Seq<u8>,
    sequence: i64,
    sample: Seq<u8>,
)
    requires
        sample.len() <= 0xffff_ffff,
        has_come(under_way, earlier, sequence, sample),
        !all_held(earlier, sample),
        is_part(part, writer_id, sequence, sample),
    ensures
        ({
            let (later, whole) = reassembly::taken(under_way, part);
            if all_held(earlier.push(part), sample) {
                &&& whole == Ok::<_, ProtocolError>(Some(sample))
                &&& is_piece(part, writer_id, sequence, sample)
            } else {
                &&& whole == Ok::<_, ProtocolError>(None::<Seq<u8>>)
                &&& has_come(later, earlier.push(part), sequence, sample)
            }
        }),
{
    let longer = earlier.push(part);
    assert forall|place: int| #[trigger]
        one_holds(longer, place) == (one_holds(earlier, place) || holds(part, place)) by {
        lemma_one_more_holds(earlier, part, place);
    }
    if part is InfoTimestamp {
        let place = choose|place: int|
            0 <= place < sample.len() && !#[trigger] one_holds(earlier, place);
        assert(!one_holds(longer, place));
    } else {
        let partial = reassembly::sample_of(under_way, sequence, sample.len() as u32);
        let (starting, size) = (part->starting, part->size);
        let payload = part->DataFrag_payload;
        assert((starting - 1) * size >= 0) by (nonlinear_arith)
            requires
                starting >= 1,
                size >= 0,
        ;
        let at = ((starting - 1) * size) as nat;
        let bytes = reassembly::overwritten(partial.bytes, at, payload);
        let came = reassembly::also_came(partial.came, at, payload.len());
        assert forall|place: int| 0 <= place < sample.len() implies #[trigger] came[place]
            == one_holds(longer, place) by {
            assert(partial.came[place] == one_holds(earlier, place));
        }
        assert forall|place: int|
            0 <= place < sample.len() && #[trigger] came[place] implies bytes[place]
            == sample[place] by {
            if !(at <= place < at + payload.len()) {
                assert(partial.came[place]);
            }
        }
        if all_held(longer, sample) {
            assert forall|place: int| 0 <= place < came.len() implies came[place] by {
                assert(one_holds(longer, place));
            }
            assert forall|place: int| 0 <= place < bytes.len() implies bytes[place]
                == sample[place] by {
                assert(came[place]);
            }
            assert(bytes =~= sample);
        } else {
            let place = choose|place: int|
                0 <= place < sample.len() && !#[trigger] one_holds(longer, place);
            assert(!came[place]);
        }
    }
}

/// What has come once parts were taken that leave a byte out.
proof fn lemma_parts_come(
    under_way: Option<Partial>,
    parts: Seq<SubmessageView>,
    writer_id: Seq<u8>,
    sequence: i64,
    sample: Seq<u8>,
)
    requires
        sample.len() <= 0xffff_ffff,
        under_way matches Some(partial) ==> partial.sequence != sequence,
        forall|k: int|
            0 <= k < parts.len() ==> is_part(#[trigger] parts[k], writer_id, sequence, sample),
        !all_held(parts, sample),
    ensures
        has_come(laws::after_all(under_way, parts), parts, sequence, sample),
    decreases parts.len(),
{
    if parts.len() == 0 {
        lemma_nothing_has_come(under_way, sequence, sample);
        assert(parts =~= Seq::empty());
    } else {
        let earlier = parts.drop_last();
        assert(parts =~= earlier.push(parts.last()));
        if all_held(earlier, sample) {
            assert forall|place: int| 0 <= place < sample.len() implies #[trigger] one_holds(
                parts,
                place,
            ) by {
                assert(one_holds(earlier, place));
                lemma_one_more_holds(earlier, parts.last(), place);
            }
        }
        lemma_parts_come(under_way, earlier, writer_id, sequence, sample);
        lemma_part_comes(
            laws::after_all(under_way, earlier),
            earlier,
            parts.last(),
            writer_id,
            sequence,
            sample,
        );
    }
}

/// Law: the fragments of a sample, of whatever size, however many to a
/// submessage and in whatever order, make the sample when the last byte of it
/// that was missing comes, and not before. `parts` are taken in turn where
/// nothing has come of the sample, and those before the last leave a byte
/// out.
pub proof fn law_fragments_make_the_sample(
    under_way: Option<Partial>,
    parts: Seq<SubmessageView>,
    writer_id: Seq<u8>,
    sequence: i64,
    sample: Seq<u8>,
)
    requires
        sample.len() <= 0xffff_ffff,
        under_way matches Some(partial) ==> partial.sequence != sequence,
        parts.len() > 0,
        forall|k: int|
            0 <= k < parts.len() ==> is_part(#[trigger] parts[k], writer_id, sequence, sample),
        !all_held(parts.drop_last(), sample),
    ensures
        reassembly::taken(laws::after_all(under_way, parts.drop_last()), parts.last()).1 == Ok::<
            _,
            ProtocolError,
        >(
            if all_held(parts, sample) {
                Some(sample)
            } else {
                None
            },
        ),
{
    let earlier = parts.drop_last();
    lemma_parts_come(under_way, earlier, writer_id, sequence, sample);
    lemma_part_comes(
        laws::after_all(under_way, earlier),
        earlier,
        parts.last(),
        writer_id,
        sequence,
        sample,
    );
    assert(parts =~= earlier.push(parts.last()));
}

/// Law: a sample of no bytes is whole with its first fragment.
pub proof fn law_empty_sample_is_whole_at_once(
    under_way: Option<Partial>,
    writer_id: Seq<u8>,
    sequence: i64,
    count: u16,
    size: u16,
)
    requires
        under_way matches Some(partial) ==> partial.sequence != sequence,
    ensures
        reassembly::taken(
            under_way,
            SubmessageView::DataFrag {
                writer_id,
                sequence,
                starting: 1,
                count,
                size,
                sample_size: 0,
                payload: Seq::empty(),
            },
        ) == (None::<Partial>, Ok::<_, ProtocolError>(Some(Seq::<u8>::empty()))),
{
    let partial = reassembly::nothing_of(sequence, 0);
    assert(reassembly::place_of(1, size) == 0) by (nonlinear_arith)
        requires
            reassembly::place_of(1, size) == (1 - 1) * size,
    ;
    assert(reassembly::overwritten(partial.bytes, 0, Seq::empty()) =~= Seq::<u8>::empty());
}

/// Fragment number `index` of `sample`, counted from zero, where each is of
/// `size` bytes and the last may be shorter.
pub open spec fn fragment_of(
    writer_id: Seq<u8>,
    sequence: i64,
    sample: Seq<u8>,
    size: u16,
    index: int,
) -> SubmessageView {
    let at = index * size;
    SubmessageView::DataFrag {
        writer_id,
        sequence,
        starting: (index + 1) as u32,
        count: 1,
        size,
        sample_size: sample.len() as u32,
        payload: sample.subrange(
            at,
            if at + size <= sample.len() {
                at + size
            } else {
                sample.len() as int
            },
        ),
    }
}

/// Law: a sample that is cut into fragments of `size` bytes, whatever that
/// is, the last shorter where it must be, is made by them in whatever order
/// they come, and as often as each of them does: it is whole with the one
/// with which each has come, and not before. `order` says which fragment
/// comes when, and those before the last are not all of them.
pub proof fn law_fragments_of_any_size_make_the_sample(
    writer_id: Seq<u8>,
    sequence: i64,
    sample: Seq<u8>,
    size: u16,
    count: int,
    order: Seq<int>,
)
    requires
        0 < sample.len() <= 0xffff_ffff,
        size > 0,
        (count - 1) * size < sample.len() <= count * size,
        order.len() > 0,
        forall|k: int| 0 <= k < order.len() ==> 0 <= #[trigger] order[k] < count,
        exists|index: int| 0 <= index < count && !#[trigger] order.drop_last().contains(index),
    ensures
        ({
            let parts = order.map_values(
                |index: int| fragment_of(writer_id, sequence, sample, size, index),
            );
            reassembly::taken(laws::under_way_after(parts.drop_last()), parts.last()).1 == Ok::<
                _,
                ProtocolError,
            >(
                if forall|index: int| 0 <= index < count ==> #[trigger] order.contains(index) {
                    Some(sample)
                } else {
                    None
                },
            )
        }),
{
    let parts = order.map_values(
        |index: int| fragment_of(writer_id, sequence, sample, size, index),
    );
    assert forall|k: int| 0 <= k < parts.len() implies is_part(
        #[trigger] parts[k],
        writer_id,
        sequence,
        sample,
    ) by {
        lemma_fragment_is_piece(writer_id, sequence, sample, size, count, order[k]);
    }
    lemma_fragments_hold(writer_id, sequence, sample, size, count, order);
    let earlier = order.drop_last();
    assert forall|k: int| 0 <= k < earlier.len() implies 0 <= #[trigger] earlier[k] < count by {
        assert(earlier[k] == order[k]);
    }
    lemma_fragments_hold(writer_id, sequence, sample, size, count, earlier);
    assert(parts.drop_last() =~= earlier.map_values(
        |index: int| fragment_of(writer_id, sequence, sample, size, index),
    ));
    law_fragments_make_the_sample(None, parts, writer_id, sequence, sample);
}

/// Where a fragment stands, and that no other stands there.
proof fn lemma_fragment_is_piece(
    writer_id: Seq<u8>,
    sequence: i64,
    sample: Seq<u8>,
    size: u16,
    count: int,
    index: int,
)
    requires
        0 < sample.len() <= 0xffff_ffff,
        size > 0,
        (count - 1) * size < sample.len() <= count * size,
        0 <= index < count,
    ensures
        index * size < sample.len(),
        index + 1 <= 0xffff_ffff,
        is_piece(
            fragment_of(writer_id, sequence, sample, size, index),
            writer_id,
            sequence,
            sample,
        ),
        forall|place: int|
            0 <= place < sample.len() ==> #[trigger] holds(
                fragment_of(writer_id, sequence, sample, size, index),
                place,
            ) == (index * size <= place < index * size + size),
{
    assert(0 <= index * size <= (count - 1) * size && index <= index * size) by (nonlinear_arith)
        requires
            0 <= index <= count - 1,
            size >= 1,
    ;
    let starting = (index + 1) as u32;
    assert((starting - 1) * size == index * size) by (nonlinear_arith)
        requires
            starting == index + 1,
    ;
}

/// Fragments hold every byte of the sample exactly when each is among them.
proof fn lemma_fragments_hold(
    writer_id: Seq<u8>,
    sequence: i64,
    sample: Seq<u8>,
    size: u16,
    count: int,
    order: Seq<int>,
)
    requires
        0 < sample.len() <= 0xffff_ffff,
        size > 0,
        (count - 1) * size < sample.len() <= count * size,
        forall|k: int| 0 <= k < order.len() ==> 0 <= #[trigger] order[k] < count,
    ensures
        all_held(
            order.map_values(|index: int| fragment_of(writer_id, sequence, sample, size, index)),
            sample,
        ) == (forall|index: int| 0 <= index < count ==> #[trigger] order.contains(index)),
{
    let parts = order.map_values(
        |index: int| fragment_of(writer_id, sequence, sample, size, index),
    );
    if forall|index: int| 0 <= index < count ==> #[trigger] order.contains(index) {
        assert forall|place: int| 0 <= place < sample.len() implies #[trigger] one_holds(
            parts,
            place,
        ) by {
            let index = place / size as int;
            assert(0 <= index < count && index * size <= place < index * size + size)
                by (nonlinear_arith)
                requires
                    0 <= place < count * size,
                    size > 0,
                    index == place / size as int,
            ;
            assert(order.contains(index));
            let k = choose|k: int| 0 <= k < order.len() && order[k] == index;
            lemma_fragment_is_piece(writer_id, sequence, sample, size, count, index);
            assert(holds(parts[k], place));
        }
    }
    if all_held(parts, sample) {
        assert forall|index: int| 0 <= index < count implies #[trigger] order.contains(index) by {
            lemma_fragment_is_piece(writer_id, sequence, sample, size, count, index);
            let place = index * size;
            assert(place >= 0) by (nonlinear_arith)
                requires
                    place == index * size,
                    index >= 0,
                    size > 0,
            ;
            assert(one_holds(parts, place));
            let k = choose|k: int| 0 <= k < parts.len() && #[trigger] holds(parts[k], place);
            let other = order[k];
            lemma_fragment_is_piece(writer_id, sequence, sample, size, count, other);
            assert(other == index) by (nonlinear_arith)
                requires
                    other * size <= index * size < other * size + size,
                    size > 0,
            ;
            assert(order[k] == index);
        }
    }
}

} // verus!
