//! The reader's side of fragmentation.

use vstd::prelude::*;
use vstd::slice::slice_to_vec;

use crate::error::ProtocolError;
use crate::rtps::message::{Submessage, SubmessageView};

verus! {

/// One sample being put back together from its fragments.
#[derive(Debug)]
pub struct Reassembly {
    under_way: Option<Sample>,
}

/// What has come of a sample.
#[derive(Debug)]
struct Sample {
    sequence: i64,
    bytes: Vec<u8>,
    came: Vec<bool>,
    missing: usize,
}

/// A sample of which fragments have come, but not all of its bytes.
pub struct Partial {
    /// The sample's sequence number.
    pub sequence: i64,
    /// As many bytes as the sample has: those that came, in their places, and
    /// zero elsewhere.
    pub bytes: Seq<u8>,
    /// Of each byte of the sample, whether it has come.
    pub came: Seq<bool>,
}

impl View for Sample {
    type V = Partial;

    closed spec fn view(&self) -> Partial {
        Partial { sequence: self.sequence, bytes: self.bytes@, came: self.came@ }
    }
}

impl View for Reassembly {
    type V = Option<Partial>;

    /// The sample under way, if any.
    closed spec fn view(&self) -> Option<Partial> {
        match self.under_way {
            Some(sample) => Some(sample@),
            None => None,
        }
    }
}

/// A sample of which nothing has come.
pub open spec fn nothing_of(sequence: i64, sample_size: u32) -> Partial {
    Partial {
        sequence,
        bytes: Seq::new(sample_size as nat, |k: int| 0u8),
        came: Seq::new(sample_size as nat, |k: int| false),
    }
}

/// The sample that a fragment belongs to: the one under way where it has the
/// fragment's sequence number, else a fresh one.
pub open spec fn sample_of(
    under_way: Option<Partial>,
    sequence: i64,
    sample_size: u32,
) -> Partial {
    match under_way {
        Some(partial) if partial.sequence == sequence => partial,
        _ => nothing_of(sequence, sample_size),
    }
}

/// Where in its sample the fragment number `starting`, counted from one,
/// begins. Number zero is taken for number one.
pub open spec fn place_of(starting: u32, size: u16) -> nat {
    if starting == 0 {
        0
    } else {
        ((starting - 1) * size) as nat
    }
}

/// `bytes` with `payload` written over them from `at`.
pub open spec fn overwritten(bytes: Seq<u8>, at: nat, payload: Seq<u8>) -> Seq<u8> {
    Seq::new(
        bytes.len(),
        |k: int|
            if at <= k < at + payload.len() {
                payload[k - at]
            } else {
                bytes[k]
            },
    )
}

/// `came` with the `count` bytes from `at` on among those that have come.
pub open spec fn also_came(came: Seq<bool>, at: nat, count: nat) -> Seq<bool> {
    Seq::new(came.len(), |k: int| came[k] || at <= k < at + count)
}

/// Every byte has come.
pub open spec fn all_came(came: Seq<bool>) -> bool {
    forall|k: int| 0 <= k < came.len() ==> came[k]
}

/// What is under way once `submessage` was taken, and what came of it: the
/// serialized sample where `submessage` completes one, or a refusal. A
/// fragment completes its sample when every byte of it has come, however
/// often.
pub open spec fn taken(under_way: Option<Partial>, submessage: SubmessageView) -> (
    Option<Partial>,
    Result<Option<Seq<u8>>, ProtocolError>,
) {
    match submessage {
        SubmessageView::InfoTimestamp { .. } => (under_way, Ok(None)),
        SubmessageView::Data { payload, .. } => (under_way, Ok(Some(payload))),
        SubmessageView::DataFrag { sequence, starting, size, sample_size, payload, .. } => {
            let partial = sample_of(under_way, sequence, sample_size);
            let at = place_of(starting, size);
            let bytes = overwritten(partial.bytes, at, payload);
            let came = also_came(partial.came, at, payload.len());
            if at + payload.len() > partial.bytes.len() {
                (Some(partial), Err(ProtocolError::FragmentPastSample))
            } else if all_came(came) {
                (None, Ok(Some(bytes)))
            } else {
                (Some(Partial { sequence, bytes, came }), Ok(None))
            }
        },
    }
}

/// How many bytes have not come.
spec fn missing_of(came: Seq<bool>) -> nat
    decreases came.len(),
{
    if came.len() == 0 {
        0
    } else {
        missing_of(came.drop_last()) + if came.last() {
            0nat
        } else {
            1nat
        }
    }
}

/// Of as many bytes as there are none has come.
proof fn lemma_all_missing(came: Seq<bool>)
    requires
        forall|k: int| 0 <= k < came.len() ==> !came[k],
    ensures
        missing_of(came) == came.len(),
    decreases came.len(),
{
    if came.len() > 0 {
        lemma_all_missing(came.drop_last());
    }
}

/// One more byte comes.
proof fn lemma_one_comes(came: Seq<bool>, at: int)
    requires
        0 <= at < came.len(),
        !came[at],
    ensures
        missing_of(came) == missing_of(came.update(at, true)) + 1,
    decreases came.len(),
{
    let later = came.update(at, true);
    if at == came.len() - 1 {
        assert(later.drop_last() =~= came.drop_last());
    } else {
        assert(later.drop_last() =~= came.drop_last().update(at, true));
        lemma_one_comes(came.drop_last(), at);
    }
}

/// Nothing is missing where every byte has come, and only there.
proof fn lemma_none_missing(came: Seq<bool>)
    ensures
        missing_of(came) == 0 <==> all_came(came),
    decreases came.len(),
{
    if came.len() > 0 {
        let earlier = came.drop_last();
        lemma_none_missing(earlier);
        if all_came(earlier) && came.last() {
            assert forall|k: int| 0 <= k < came.len() implies came[k] by {
                if k < earlier.len() {
                    assert(earlier[k]);
                }
            }
        }
        if all_came(came) {
            assert forall|k: int| 0 <= k < earlier.len() implies earlier[k] by {
                assert(came[k]);
            }
        }
    }
}

impl Sample {
    /// Each byte has its flag, and what is missing is what the flags say.
    spec fn well_formed(&self) -> bool {
        &&& self.came@.len() == self.bytes@.len()
        &&& self.missing == missing_of(self.came@)
    }

    /// A sample of which nothing has come.
    fn nothing(sequence: i64, sample_size: u32) -> (sample: Self)
        ensures
            sample.well_formed(),
            sample@ == nothing_of(sequence, sample_size),
    {
        let bytes: Vec<u8> = vec![0; sample_size as usize];
        let came: Vec<bool> = vec![false; sample_size as usize];
        proof {
            lemma_all_missing(came@);
        }
        let sample = Sample { sequence, bytes, came, missing: sample_size as usize };
        assert(sample@.bytes =~= nothing_of(sequence, sample_size).bytes);
        assert(sample@.came =~= nothing_of(sequence, sample_size).came);
        sample
    }

    /// Put `payload` in its place.
    fn place(&mut self, at: usize, payload: &[u8])
        requires
            old(self).well_formed(),
            at + payload@.len() <= old(self)@.bytes.len(),
        ensures
            final(self).well_formed(),
            final(self)@ == (Partial {
                sequence: old(self)@.sequence,
                bytes: overwritten(old(self)@.bytes, at as nat, payload@),
                came: also_came(old(self)@.came, at as nat, payload@.len()),
            }),
    {
        let ghost earlier = self@;
        let mut copied: usize = 0;
        assert(self@.bytes =~= overwritten(earlier.bytes, at as nat, payload@.take(0)));
        assert(self@.came =~= also_came(earlier.came, at as nat, 0));
        while copied < payload.len()
            invariant
                copied <= payload@.len(),
                at + payload@.len() <= self.bytes.len(),
                self.well_formed(),
                earlier.bytes.len() == earlier.came.len(),
                self@ == (Partial {
                    sequence: earlier.sequence,
                    bytes: overwritten(
                        earlier.bytes,
                        at as nat,
                        payload@.take(copied as int),
                    ),
                    came: also_came(earlier.came, at as nat, copied as nat),
                }),
            decreases payload@.len() - copied,
        {
            let next: usize = at + copied;
            self.bytes.set(next, payload[copied]);
            if !self.came[next] {
                proof {
                    lemma_one_comes(self.came@, next as int);
                }
                self.came.set(next, true);
                self.missing = self.missing - 1;
            }
            copied += 1;
            assert(self@.bytes =~= overwritten(
                earlier.bytes,
                at as nat,
                payload@.take(copied as int),
            ));
            assert(self@.came =~= also_came(earlier.came, at as nat, copied as nat));
        }
        assert(payload@.take(copied as int) =~= payload@);
    }
}

impl Default for Reassembly {
    /// No sample under way.
    fn default() -> (reassembly: Self)
        ensures
            reassembly@ == None::<Partial>,
    {
        Reassembly { under_way: None }
    }
}

impl Reassembly {
    #[verifier::type_invariant]
    spec fn well_formed(&self) -> bool {
        self.under_way matches Some(sample) ==> sample.well_formed()
    }

    /// One submessage; the serialized sample when this completes it. A
    /// timestamp completes nothing.
    ///
    /// # Errors
    /// A fragment past the sample's size.
    pub fn take(&mut self, submessage: &Submessage) -> (whole: Result<
        Option<Vec<u8>>,
        ProtocolError,
    >)
        ensures
            final(self)@ == taken(old(self)@, submessage@).0,
            match whole {
                Ok(Some(bytes)) => taken(old(self)@, submessage@).1 == Ok::<_, ProtocolError>(
                    Some(bytes@),
                ),
                Ok(None) => taken(old(self)@, submessage@).1 == Ok::<_, ProtocolError>(
                    None::<Seq<u8>>,
                ),
                Err(error) => taken(old(self)@, submessage@).1 == Err::<Option<Seq<u8>>, _>(error),
            },
    {
        match submessage {
            Submessage::InfoTimestamp { .. } => Ok(None),
            Submessage::Data { payload, .. } => Ok(Some(slice_to_vec(payload.as_slice()))),
            Submessage::DataFrag { sequence, starting, size, sample_size, payload, .. } => {
                proof {
                    use_type_invariant(&*self);
                }
                let mut under_way: Option<Sample> = None;
                std::mem::swap(&mut under_way, &mut self.under_way);
                let mut sample: Sample = match under_way {
                    Some(sample) => if sample.sequence == *sequence {
                        sample
                    } else {
                        Sample::nothing(*sequence, *sample_size)
                    },
                    None => Sample::nothing(*sequence, *sample_size),
                };
                assert(sample@ == sample_of(old(self)@, *sequence, *sample_size));
                let before: u32 = if *starting == 0 {
                    0
                } else {
                    *starting - 1
                };
                assert(before * *size <= 0xffff_ffff * 0xffff) by (nonlinear_arith)
                    requires
                        before <= 0xffff_ffff,
                        *size <= 0xffff,
                ;
                let place: u64 = before as u64 * *size as u64;
                if payload.len() > sample.bytes.len() || place > (sample.bytes.len()
                    - payload.len()) as u64 {
                    self.under_way = Some(sample);
                    return Err(ProtocolError::FragmentPastSample);
                }
                sample.place(place as usize, payload.as_slice());
                proof {
                    lemma_none_missing(sample.came@);
                }
                if sample.missing == 0 {
                    return Ok(Some(sample.bytes));
                }
                self.under_way = Some(sample);
                Ok(None)
            },
        }
    }
}

} // verus!
