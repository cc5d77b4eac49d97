//! A sample as a CDR octet sequence behind the encapsulation header.

use vstd::prelude::*;
use vstd::slice::{slice_subrange, slice_to_vec};

use crate::error::ProtocolError;
use crate::le;

verus! {

/// CDR, little-endian, no options.
pub const CDR_LE: [u8; 4] = [0x00, 0x01, 0x00, 0x00];

/// How many bytes bring `length` to a multiple of four.
pub open spec fn padding(length: nat) -> nat {
    ((4 - length % 4) % 4) as nat
}

/// `bytes` behind the encapsulation header and their length, padded to four.
/// The length stops at what four bytes can write.
pub open spec fn serialized(bytes: Seq<u8>) -> Seq<u8> {
    CDR_LE@ + le::le_bytes(le::saturated(bytes.len(), 0xffff_ffff), 4) + bytes + Seq::new(
        padding(bytes.len()),
        |k: int| 0u8,
    )
}

/// The octet sequence that a serialized payload carries, or why it is
/// refused.
pub open spec fn deserialized(serialized: Seq<u8>) -> Result<Seq<u8>, ProtocolError> {
    if serialized.len() < 8 {
        Err(ProtocolError::EncapsulationCut)
    } else if serialized.subrange(0, 4) != CDR_LE@ {
        Err(ProtocolError::Encapsulation)
    } else {
        let length = le::le_value(serialized.subrange(4, 8));
        if 8 + length > serialized.len() {
            Err(ProtocolError::LengthPastPayload)
        } else {
            Ok(serialized.subrange(8, 8 + length as int))
        }
    }
}

/// `bytes` as a CDR octet sequence behind the encapsulation header, padded
/// to four.
#[must_use]
pub fn serialize(bytes: &[u8]) -> (out: Vec<u8>)
    ensures
        out@ == serialized(bytes@),
{
    let length: u32 = if bytes.len() <= 0xffff_ffff {
        bytes.len() as u32
    } else {
        0xffff_ffff
    };
    let mut out: Vec<u8> = slice_to_vec(&CDR_LE);
    le::put_u32(&mut out, length);
    le::put_bytes(&mut out, bytes);
    let ghost unpadded = out@;
    let zeros: usize = (4 - bytes.len() % 4) % 4;
    let mut added: usize = 0;
    while added < zeros
        invariant
            added <= zeros,
            zeros == padding(bytes@.len()),
            out@ == unpadded + Seq::new(added as nat, |k: int| 0u8),
        decreases zeros - added,
    {
        out.push(0);
        added += 1;
        assert(out@ =~= unpadded + Seq::new(added as nat, |k: int| 0u8));
    }
    assert(out@ =~= serialized(bytes@));
    out
}

/// The octet sequence a serialized payload carries.
///
/// # Errors
/// Not CDR little-endian, or a length past the payload.
pub fn deserialize(serialized: &[u8]) -> (bytes: Result<Vec<u8>, ProtocolError>)
    ensures
        match bytes {
            Ok(bytes) => deserialized(serialized@) == Ok::<_, ProtocolError>(bytes@),
            Err(error) => deserialized(serialized@) == Err::<Seq<u8>, _>(error),
        },
{
    if serialized.len() < 8 {
        return Err(ProtocolError::EncapsulationCut);
    }
    if serialized[0] != 0x00 || serialized[1] != 0x01 || serialized[2] != 0x00 || serialized[3]
        != 0x00 {
        proof {
            let head = serialized@.subrange(0, 4);
            assert(head[0] == serialized@[0] && head[1] == serialized@[1] && head[2]
                == serialized@[2] && head[3] == serialized@[3]);
        }
        return Err(ProtocolError::Encapsulation);
    }
    assert(serialized@.subrange(0, 4) =~= CDR_LE@);
    let length: u32 = le::get_u32(serialized, 4);
    if length as usize > serialized.len() - 8 {
        return Err(ProtocolError::LengthPastPayload);
    }
    Ok(slice_to_vec(slice_subrange(serialized, 8, 8 + length as usize)))
}

/// Law: what is serialized is padded to a multiple of four, with fewer than
/// four bytes of padding.
pub proof fn law_serialized_is_padded_to_four(bytes: Seq<u8>)
    ensures
        serialized(bytes).len() % 4 == 0,
        8 + bytes.len() <= serialized(bytes).len() < 8 + bytes.len() + 4,
{
    le::lemma_le_bytes_len(le::saturated(bytes.len(), 0xffff_ffff), 4);
    let length = bytes.len();
    assert((8 + length + padding(length)) % 4 == 0) by {
        let over = length % 4;
        assert(length == 4 * (length / 4) + over);
        assert(over == 0 || over == 1 || over == 2 || over == 3);
    }
    assert(serialized(bytes).len() == 8 + length + padding(length));
}

/// Law: what is serialized is deserialized to the same bytes, as many as a
/// length of four bytes can count.
pub proof fn law_serialized_reads_back(bytes: Seq<u8>)
    requires
        bytes.len() <= 0xffff_ffff,
    ensures
        deserialized(serialized(bytes)) == Ok::<_, ProtocolError>(bytes),
{
    let whole = serialized(bytes);
    le::lemma_le_bytes_len(bytes.len(), 4);
    le::law_le_reads_back(bytes.len());
    assert(whole.subrange(0, 4) =~= CDR_LE@);
    assert(whole.subrange(4, 8) =~= le::le_bytes(bytes.len(), 4));
    assert(whole.subrange(8, 8 + bytes.len() as int) =~= bytes);
}

/// Law: what is serialized holds 0, 1, 0, 0, then how many bytes there are,
/// then the bytes, then zeros.
pub proof fn law_serialized_layout(bytes: Seq<u8>)
    ensures
        ({
            let whole = serialized(bytes);
            &&& whole[0] == 0 && whole[1] == 1 && whole[2] == 0 && whole[3] == 0
            &&& le::u32_at(whole, 4) == if bytes.len() <= 0xffff_ffff {
                bytes.len() as int
            } else {
                0xffff_ffff
            }
            &&& forall|k: int| 0 <= k < bytes.len() ==> #[trigger] bytes[k] == whole[8 + k]
            &&& forall|k: int|
                8 + bytes.len() <= k < whole.len() ==> #[trigger] whole[k] == 0
        }),
{
    let length = le::saturated(bytes.len(), 0xffff_ffff);
    le::law_first_byte_counts_ones(length);
    let field = le::le_bytes(length, 4);
    let whole = serialized(bytes);
    assert(whole[4] == field[0] && whole[5] == field[1] && whole[6] == field[2] && whole[7]
        == field[3]);
}

/// Law: a payload is read exactly where it holds 0, 1, 0, 0 and then a length
/// that is not past its end; it gives as many bytes as that length says, from
/// behind the length on.
pub proof fn law_payload_is_read_by_its_length(payload: Seq<u8>)
    ensures
        ({
            let read = deserialized(payload);
            let length = le::u32_at(payload, 4);
            let is_cdr = payload[0] == 0 && payload[1] == 1 && payload[2] == 0 && payload[3] == 0;
            &&& payload.len() < 8 ==> read == Err::<Seq<u8>, _>(ProtocolError::EncapsulationCut)
            &&& payload.len() >= 8 && !is_cdr ==> read == Err::<Seq<u8>, _>(
                ProtocolError::Encapsulation,
            )
            &&& payload.len() >= 8 && is_cdr && 8 + length > payload.len() ==> read == Err::<
                Seq<u8>,
                _,
            >(ProtocolError::LengthPastPayload)
            &&& payload.len() >= 8 && is_cdr && 8 + length <= payload.len() ==> read == Ok::<
                _,
                ProtocolError,
            >(payload.subrange(8, 8 + length))
        }),
{
    if payload.len() >= 8 {
        le::law_first_byte_is_read_as_ones(payload, 4);
        let head = payload.subrange(0, 4);
        assert(head[0] == payload[0] && head[1] == payload[1] && head[2] == payload[2] && head[3]
            == payload[3]);
        if payload[0] == 0 && payload[1] == 1 && payload[2] == 0 && payload[3] == 0 {
            assert(head =~= CDR_LE@);
        }
    }
}

/// Law: what stands behind the bytes that a payload's length counts changes
/// nothing.
pub proof fn law_bytes_behind_the_payload_do_not_matter(payload: Seq<u8>, more: Seq<u8>)
    requires
        deserialized(payload) is Ok,
    ensures
        deserialized(payload + more) == deserialized(payload),
{
    let longer = payload + more;
    assert(longer.subrange(0, 4) =~= payload.subrange(0, 4));
    assert(longer.subrange(4, 8) =~= payload.subrange(4, 8));
    let length = le::le_value(payload.subrange(4, 8)) as int;
    assert(longer.subrange(8, 8 + length) =~= payload.subrange(8, 8 + length));
}

/// Law: deserializing undoes serializing.
pub proof fn law_deserializing_undoes_serializing(
    bytes: &[u8],
    written: Vec<u8>,
    payload: &[u8],
    read: Result<Vec<u8>, ProtocolError>,
)
    requires
        bytes@.len() <= 0xffff_ffff,
        call_ensures(serialize, (bytes,), written),
        payload@ == written@,
        call_ensures(deserialize, (payload,), read),
    ensures
        read matches Ok(found) && found@ == bytes@,
{
    law_serialized_reads_back(bytes@);
}

} // verus!
