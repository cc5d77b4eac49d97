//! The words of an origin: where a sample came from, and which it is.

use vstd::prelude::*;

verus! {

/// The digits of base sixteen; the first ten are those of base ten.
pub open spec fn digit(value: int) -> char {
    seq!['0', '1', '2', '3', '4', '5', '6', '7', '8', '9', 'a', 'b', 'c', 'd', 'e', 'f'][value]
}

/// Two digits of base sixteen for each of `bytes`.
pub open spec fn hex_text(bytes: Seq<u8>) -> Seq<char> {
    Seq::new(
        2 * bytes.len(),
        |k: int|
            digit(
                if k % 2 == 0 {
                    bytes[k / 2] as int / 16
                } else {
                    bytes[k / 2] as int % 16
                },
            ),
    )
}

/// The digits of `value` in base ten, without leading zeros.
pub open spec fn decimal_digits(value: nat) -> Seq<char>
    decreases value,
{
    if value < 10 {
        seq![digit(value as int)]
    } else {
        decimal_digits(value / 10).push(digit(value as int % 10))
    }
}

/// `value` in base ten, behind a minus sign where it is negative.
pub open spec fn decimal_text(value: int) -> Seq<char> {
    if value < 0 {
        seq!['-'] + decimal_digits((-value) as nat)
    } else {
        decimal_digits(value as nat)
    }
}

/// How the origin of a datagram starts.
pub open spec fn udp_scheme() -> Seq<char> {
    seq!['u', 'd', 'p', ':', '/', '/']
}

/// The address in a datagram's origin: what is left once every `udp://` at
/// its start is gone.
pub open spec fn peer_text(origin: Seq<char>) -> Seq<char>
    decreases origin.len(),
{
    if origin.len() >= 6 && origin.take(6) == udp_scheme() {
        peer_text(origin.skip(6))
    } else {
        origin
    }
}

/// The origin of sample `sequence` from the writer `writer_id` behind
/// `guid_prefix`, in a datagram from `datagram_origin`.
pub open spec fn origin_text(
    datagram_origin: Seq<char>,
    guid_prefix: Seq<u8>,
    writer_id: Seq<u8>,
    sequence: int,
) -> Seq<char> {
    "dds://"@ + peer_text(datagram_origin) + "/"@ + hex_text(guid_prefix) + hex_text(writer_id)
        + "?sn="@ + decimal_text(sequence)
}

/// One digit of base sixteen.
fn digit_str(value: u8) -> (text: &'static str)
    requires
        value < 16,
    ensures
        text@ == seq![digit(value as int)],
{
    proof {
        reveal_strlit("0");
        reveal_strlit("1");
        reveal_strlit("2");
        reveal_strlit("3");
        reveal_strlit("4");
        reveal_strlit("5");
        reveal_strlit("6");
        reveal_strlit("7");
        reveal_strlit("8");
        reveal_strlit("9");
        reveal_strlit("a");
        reveal_strlit("b");
        reveal_strlit("c");
        reveal_strlit("d");
        reveal_strlit("e");
        reveal_strlit("f");
    }
    let text: &'static str = match value {
        0 => "0",
        1 => "1",
        2 => "2",
        3 => "3",
        4 => "4",
        5 => "5",
        6 => "6",
        7 => "7",
        8 => "8",
        9 => "9",
        10 => "a",
        11 => "b",
        12 => "c",
        13 => "d",
        14 => "e",
        _ => "f",
    };
    assert(text@ =~= seq![digit(value as int)]);
    text
}

/// `bytes` in base sixteen, two digits each.
pub fn hex(bytes: &[u8]) -> (text: String)
    ensures
        text@ == hex_text(bytes@),
{
    let mut text: String = String::new();
    let mut at: usize = 0;
    while at < bytes.len()
        invariant
            at <= bytes@.len(),
            text@ == hex_text(bytes@.take(at as int)),
        decreases bytes@.len() - at,
    {
        text.append(digit_str(bytes[at] / 16));
        text.append(digit_str(bytes[at] % 16));
        at += 1;
        assert(text@ =~= hex_text(bytes@.take(at as int)));
    }
    assert(bytes@.take(at as int) =~= bytes@);
    text
}

/// Write the digits of `value` at the end of `text`.
fn append_digits(text: &mut String, value: u64)
    ensures
        final(text)@ == old(text)@ + decimal_digits(value as nat),
    decreases value,
{
    let ghost before = text@;
    if value >= 10 {
        append_digits(text, value / 10);
    }
    text.append(digit_str((value % 10) as u8));
    assert(text@ =~= before + decimal_digits(value as nat));
}

/// `value` in base ten.
pub fn decimal(value: i64) -> (text: String)
    ensures
        text@ == decimal_text(value as int),
{
    let mut text: String = String::new();
    if value < 0 {
        proof {
            reveal_strlit("-");
        }
        text.append("-");
        append_digits(&mut text, (-(value as i128)) as u64);
    } else {
        append_digits(&mut text, value as u64);
    }
    assert(text@ =~= decimal_text(value as int));
    text
}

/// The address in a datagram's origin.
pub fn peer(origin: &str) -> (address: &str)
    ensures
        address@ == peer_text(origin@),
{
    let mut rest: &str = origin;
    let mut length: usize = origin.unicode_len();
    while length >= 6 && rest.get_char(0) == 'u' && rest.get_char(1) == 'd' && rest.get_char(2)
        == 'p' && rest.get_char(3) == ':' && rest.get_char(4) == '/' && rest.get_char(5) == '/'
        invariant
            length == rest@.len(),
            peer_text(rest@) == peer_text(origin@),
        decreases length,
    {
        assert(rest@.take(6) =~= udp_scheme());
        assert(rest@.skip(6) =~= rest@.subrange(6, length as int));
        rest = rest.substring_char(6, length);
        length -= 6;
    }
    proof {
        if length >= 6 {
            let start = rest@.take(6);
            assert(start[0] == rest@[0] && start[1] == rest@[1] && start[2] == rest@[2]
                && start[3] == rest@[3] && start[4] == rest@[4] && start[5] == rest@[5]);
        }
    }
    rest
}

/// The origin of a sample.
pub fn origin(
    datagram_origin: &str,
    guid_prefix: &[u8],
    writer_id: &[u8],
    sequence: i64,
) -> (text: String)
    ensures
        text@ == origin_text(datagram_origin@, guid_prefix@, writer_id@, sequence as int),
{
    let mut text: String = String::new();
    text.append("dds://");
    text.append(peer(datagram_origin));
    text.append("/");
    text.append(hex(guid_prefix).as_str());
    text.append(hex(writer_id).as_str());
    text.append("?sn=");
    text.append(decimal(sequence).as_str());
    assert(text@ =~= origin_text(datagram_origin@, guid_prefix@, writer_id@, sequence as int));
    text
}

/// Different digits look different, and none looks like a minus sign.
proof fn lemma_digits_differ(a: int, b: int)
    requires
        0 <= a < 16,
        0 <= b < 16,
    ensures
        digit(a) == digit(b) ==> a == b,
        digit(a) != '-',
{
}

/// Law: different bytes have different digits.
pub proof fn law_hex_tells_bytes_apart(a: Seq<u8>, b: Seq<u8>)
    requires
        hex_text(a) == hex_text(b),
    ensures
        a == b,
{
    assert(hex_text(a).len() == 2 * a.len());
    assert(hex_text(b).len() == 2 * b.len());
    assert forall|k: int| 0 <= k < a.len() implies a[k] == b[k] by {
        let (high_a, low_a) = (a[k] as int / 16, a[k] as int % 16);
        let (high_b, low_b) = (b[k] as int / 16, b[k] as int % 16);
        assert(hex_text(a)[2 * k] == digit(high_a));
        assert(hex_text(b)[2 * k] == digit(high_b));
        assert(hex_text(a)[2 * k + 1] == digit(low_a));
        assert(hex_text(b)[2 * k + 1] == digit(low_b));
        lemma_digits_differ(high_a, high_b);
        lemma_digits_differ(low_a, low_b);
    }
    assert(a =~= b);
}

/// Different numbers have different digits, none of them a minus sign.
proof fn lemma_decimal_digits_differ(a: nat, b: nat)
    ensures
        decimal_digits(a).len() > 0,
        decimal_digits(a)[0] != '-',
        decimal_digits(a) == decimal_digits(b) ==> a == b,
    decreases a,
{
    let (text_a, text_b) = (decimal_digits(a), decimal_digits(b));
    lemma_digits_differ(a as int % 10, b as int % 10);
    if a >= 10 {
        lemma_decimal_digits_differ(a / 10, b / 10);
    }
    assert(text_a.last() == digit(a as int % 10));
    assert(text_b.last() == digit(b as int % 10));
    if text_a == text_b {
        if a >= 10 && b >= 10 {
            assert(text_a.drop_last() =~= decimal_digits(a / 10));
            assert(text_b.drop_last() =~= decimal_digits(b / 10));
        } else if b >= 10 {
            lemma_decimal_digits_len(b);
        } else if a >= 10 {
            lemma_decimal_digits_len(a);
        }
    }
}

/// A number of more than one digit has more than one digit.
proof fn lemma_decimal_digits_len(value: nat)
    ensures
        value >= 10 ==> decimal_digits(value).len() > 1,
        decimal_digits(value).len() > 0,
    decreases value,
{
    if value >= 10 {
        lemma_decimal_digits_len(value / 10);
    }
}

/// Law: different numbers have different texts.
pub proof fn law_decimal_tells_numbers_apart(a: int, b: int)
    requires
        decimal_text(a) == decimal_text(b),
    ensures
        a == b,
{
    let size_a = if a < 0 { (-a) as nat } else { a as nat };
    let size_b = if b < 0 { (-b) as nat } else { b as nat };
    lemma_decimal_digits_differ(size_a, size_b);
    lemma_decimal_digits_differ(size_b, size_a);
    if a < 0 {
        assert(decimal_text(a)[0] == '-');
    }
    if b < 0 {
        assert(decimal_text(b)[0] == '-');
    }
    if a < 0 && b < 0 {
        assert(decimal_text(a).drop_first() =~= decimal_digits(size_a));
        assert(decimal_text(b).drop_first() =~= decimal_digits(size_b));
    }
}

/// Law: an origin names the writer and the sample. Of two samples in
/// datagrams from one place, the origins are the same only where the writers
/// and the numbers are.
pub proof fn law_origin_names_the_sample(
    datagram_origin: Seq<char>,
    guid_prefix_a: Seq<u8>,
    writer_id_a: Seq<u8>,
    sequence_a: int,
    guid_prefix_b: Seq<u8>,
    writer_id_b: Seq<u8>,
    sequence_b: int,
)
    requires
        guid_prefix_a.len() == 12,
        writer_id_a.len() == 4,
        guid_prefix_b.len() == 12,
        writer_id_b.len() == 4,
        origin_text(datagram_origin, guid_prefix_a, writer_id_a, sequence_a) == origin_text(
            datagram_origin,
            guid_prefix_b,
            writer_id_b,
            sequence_b,
        ),
    ensures
        guid_prefix_a == guid_prefix_b,
        writer_id_a == writer_id_b,
        sequence_a == sequence_b,
{
    let a = origin_text(datagram_origin, guid_prefix_a, writer_id_a, sequence_a);
    let b = origin_text(datagram_origin, guid_prefix_b, writer_id_b, sequence_b);
    let start = ("dds://"@ + peer_text(datagram_origin) + "/"@).len() as int;
    let number = start + 24 + 8 + "?sn="@.len();
    assert(a.subrange(start, start + 24) =~= hex_text(guid_prefix_a));
    assert(b.subrange(start, start + 24) =~= hex_text(guid_prefix_b));
    assert(a.subrange(start + 24, start + 32) =~= hex_text(writer_id_a));
    assert(b.subrange(start + 24, start + 32) =~= hex_text(writer_id_b));
    assert(a.skip(number) =~= decimal_text(sequence_a));
    assert(b.skip(number) =~= decimal_text(sequence_b));
    law_hex_tells_bytes_apart(guid_prefix_a, guid_prefix_b);
    law_hex_tells_bytes_apart(writer_id_a, writer_id_b);
    law_decimal_tells_numbers_apart(sequence_a, sequence_b);
}

/// The number that a digit of base sixteen stands for; -1 where it is none.
pub open spec fn digit_value(digit: char) -> int {
    if '0' <= digit <= '9' {
        digit as int - '0' as int
    } else if 'a' <= digit <= 'f' {
        digit as int - 'a' as int + 10
    } else {
        -1
    }
}

/// The number that digits of base ten write.
pub open spec fn decimal_value(digits: Seq<char>) -> int
    decreases digits.len(),
{
    if digits.len() == 0 {
        0
    } else {
        10 * decimal_value(digits.drop_last()) + digit_value(digits.last())
    }
}

/// A digit stands for its number.
proof fn lemma_digit_value(value: int)
    requires
        0 <= value < 16,
    ensures
        digit_value(digit(value)) == value,
        value < 10 ==> '0' <= digit(value) <= '9',
{
}

/// Law: in base sixteen each byte is two digits, the high one first, and the
/// letters among them are small.
pub proof fn law_hex_is_two_digits_a_byte(bytes: Seq<u8>, at: int)
    requires
        0 <= at < bytes.len(),
    ensures
        hex_text(bytes).len() == 2 * bytes.len(),
        0 <= digit_value(hex_text(bytes)[2 * at]) < 16,
        0 <= digit_value(hex_text(bytes)[2 * at + 1]) < 16,
        16 * digit_value(hex_text(bytes)[2 * at]) + digit_value(hex_text(bytes)[2 * at + 1])
            == bytes[at],
{
    let (high, low) = (bytes[at] as int / 16, bytes[at] as int % 16);
    lemma_digit_value(high);
    lemma_digit_value(low);
    assert(hex_text(bytes)[2 * at] == digit(high));
    assert(hex_text(bytes)[2 * at + 1] == digit(low));
}

/// The digits of a number write it, and do not start with a zero that they
/// could do without.
proof fn lemma_decimal_digits_write_the_number(value: nat)
    ensures
        decimal_digits(value).len() > 0,
        forall|k: int|
            0 <= k < decimal_digits(value).len() ==> '0' <= #[trigger] decimal_digits(value)[k]
                <= '9',
        decimal_value(decimal_digits(value)) == value,
        value > 0 ==> decimal_digits(value)[0] != '0',
        value == 0 ==> decimal_digits(value).len() == 1,
    decreases value,
{
    let text = decimal_digits(value);
    lemma_digit_value(value as int % 10);
    if value < 10 {
        reveal_with_fuel(decimal_value, 2);
        assert(text.drop_last() =~= Seq::empty());
        lemma_digit_value(value as int);
        lemma_digits_differ(value as int, 0);
    } else {
        lemma_decimal_digits_write_the_number(value / 10);
        assert(text.drop_last() =~= decimal_digits(value / 10));
        assert(text[0] == decimal_digits(value / 10)[0]);
        assert forall|k: int| 0 <= k < text.len() implies '0' <= #[trigger] text[k] <= '9' by {
            if k < text.len() - 1 {
                assert(text[k] == decimal_digits(value / 10)[k]);
            }
        }
    }
}

/// `digits` are digits of base ten that write `value`, without zeros in
/// front.
pub open spec fn writes(digits: Seq<char>, value: int) -> bool {
    &&& digits.len() > 0
    &&& forall|k: int| 0 <= k < digits.len() ==> '0' <= #[trigger] digits[k] <= '9'
    &&& decimal_value(digits) == value
    &&& digits.len() > 1 ==> digits[0] != '0'
}

/// Law: a number in base ten is its digits and nothing else, without zeros
/// in front, and behind a minus sign where it is negative.
pub proof fn law_decimal_writes_the_number(value: int)
    ensures
        value >= 0 ==> writes(decimal_text(value), value),
        value < 0 ==> decimal_text(value).len() > 0 && decimal_text(value)[0] == '-' && writes(
            decimal_text(value).skip(1),
            -value,
        ),
{
    let size = if value < 0 {
        (-value) as nat
    } else {
        value as nat
    };
    lemma_decimal_digits_write_the_number(size);
    if value < 0 {
        assert(decimal_text(value).skip(1) =~= decimal_digits(size));
    }
}

/// `origin` starts with `udp://`.
pub open spec fn starts_with_scheme(origin: Seq<char>) -> bool {
    origin.len() >= 6 && origin[0] == 'u' && origin[1] == 'd' && origin[2] == 'p' && origin[3]
        == ':' && origin[4] == '/' && origin[5] == '/'
}

/// Law: the address of a peer is the datagram's origin without the `udp://`
/// at its start, all of it; one that does not start so is the address
/// itself.
pub proof fn law_peer_is_the_whole_address(address: Seq<char>)
    ensures
        peer_text(seq!['u', 'd', 'p', ':', '/', '/'] + address) == peer_text(address),
        !starts_with_scheme(address) ==> peer_text(address) == address,
        !starts_with_scheme(address) ==> peer_text(
            seq!['u', 'd', 'p', ':', '/', '/'] + address,
        ) == address,
{
    let origin = seq!['u', 'd', 'p', ':', '/', '/'] + address;
    assert(origin.take(6) =~= udp_scheme());
    assert(origin.skip(6) =~= address);
    if address.len() >= 6 && !starts_with_scheme(address) {
        let start = address.take(6);
        assert(start[0] == address[0] && start[1] == address[1] && start[2] == address[2]
            && start[3] == address[3] && start[4] == address[4] && start[5] == address[5]);
    }
}

/// Law: an origin is `dds://`, the peer's address, a slash, the writer's GUID
/// and `?sn=` with the sample's number, with nothing between them.
pub proof fn law_origin_layout(
    address: Seq<char>,
    guid_prefix: Seq<u8>,
    writer_id: Seq<u8>,
    sequence: int,
)
    requires
        !starts_with_scheme(address),
    ensures
        origin_text(
            seq!['u', 'd', 'p', ':', '/', '/'] + address,
            guid_prefix,
            writer_id,
            sequence,
        ) == seq!['d', 'd', 's', ':', '/', '/'] + address + seq!['/'] + hex_text(
            guid_prefix + writer_id,
        ) + seq!['?', 's', 'n', '='] + decimal_text(sequence),
        origin_text(address, guid_prefix, writer_id, sequence) == origin_text(
            seq!['u', 'd', 'p', ':', '/', '/'] + address,
            guid_prefix,
            writer_id,
            sequence,
        ),
{
    law_peer_is_the_whole_address(address);
    reveal_strlit("dds://");
    reveal_strlit("/");
    reveal_strlit("?sn=");
    assert("dds://"@ =~= seq!['d', 'd', 's', ':', '/', '/']);
    assert("/"@ =~= seq!['/']);
    assert("?sn="@ =~= seq!['?', 's', 'n', '=']);
    assert(hex_text(guid_prefix) + hex_text(writer_id) =~= hex_text(guid_prefix + writer_id)) by {
        assert forall|k: int| 0 <= k < hex_text(guid_prefix + writer_id).len() implies (hex_text(
            guid_prefix,
        ) + hex_text(writer_id))[k] == #[trigger] hex_text(guid_prefix + writer_id)[k] by {
            if k < 2 * guid_prefix.len() {
                assert((guid_prefix + writer_id)[k / 2] == guid_prefix[k / 2]);
            } else {
                let behind = k - 2 * guid_prefix.len();
                assert(k / 2 == guid_prefix.len() + behind / 2);
                assert(k % 2 == behind % 2);
                assert((guid_prefix + writer_id)[k / 2] == writer_id[behind / 2]);
            }
        }
    }
    assert(origin_text(
        seq!['u', 'd', 'p', ':', '/', '/'] + address,
        guid_prefix,
        writer_id,
        sequence,
    ) =~= seq!['d', 'd', 's', ':', '/', '/'] + address + seq!['/'] + hex_text(
        guid_prefix + writer_id,
    ) + seq!['?', 's', 'n', '='] + decimal_text(sequence));
}

/// Of two origins that are the same, the number of neither is longer.
proof fn lemma_numbers_are_as_long(
    front_a: Seq<char>,
    sequence_a: int,
    front_b: Seq<char>,
    sequence_b: int,
)
    requires
        front_a + seq!['?', 's', 'n', '='] + decimal_text(sequence_a) == front_b + seq![
            '?',
            's',
            'n',
            '=',
        ] + decimal_text(sequence_b),
    ensures
        decimal_text(sequence_a).len() >= decimal_text(sequence_b).len(),
{
    let (text_a, text_b) = (decimal_text(sequence_a), decimal_text(sequence_b));
    if text_a.len() < text_b.len() {
        let whole = front_a + seq!['?', 's', 'n', '='] + text_a;
        let other = front_b + seq!['?', 's', 'n', '='] + text_b;
        let mark = front_a.len() as int;
        assert(whole[mark] == '?');
        let behind = mark - front_b.len();
        assert(whole.len() == front_a.len() + 4 + text_a.len());
        assert(other.len() == front_b.len() + 4 + text_b.len());
        assert(whole == other);
        assert(behind == text_b.len() - text_a.len());
        assert(other[mark] == '?');
        if behind < 4 {
            assert(behind == 1 || behind == 2 || behind == 3);
            assert(other[mark] == seq!['?', 's', 'n', '='][behind]);
        } else {
            let at = behind - 4;
            assert(other[mark] == text_b[at]);
            law_decimal_writes_the_number(sequence_b);
            if sequence_b < 0 && at > 0 {
                assert(text_b.skip(1)[at - 1] == text_b[at]);
            }
        }
    }
}

/// Law: origins tell peers, writers and samples apart: two are the same only
/// where the peers' addresses, the writers and the numbers are.
pub proof fn law_origin_names_the_peer(
    address_a: Seq<char>,
    guid_prefix_a: Seq<u8>,
    writer_id_a: Seq<u8>,
    sequence_a: int,
    address_b: Seq<char>,
    guid_prefix_b: Seq<u8>,
    writer_id_b: Seq<u8>,
    sequence_b: int,
)
    requires
        !starts_with_scheme(address_a),
        !starts_with_scheme(address_b),
        guid_prefix_a.len() == 12,
        writer_id_a.len() == 4,
        guid_prefix_b.len() == 12,
        writer_id_b.len() == 4,
        origin_text(
            seq!['u', 'd', 'p', ':', '/', '/'] + address_a,
            guid_prefix_a,
            writer_id_a,
            sequence_a,
        ) == origin_text(
            seq!['u', 'd', 'p', ':', '/', '/'] + address_b,
            guid_prefix_b,
            writer_id_b,
            sequence_b,
        ),
    ensures
        address_a == address_b,
        guid_prefix_a == guid_prefix_b,
        writer_id_a == writer_id_b,
        sequence_a == sequence_b,
{
    law_origin_layout(address_a, guid_prefix_a, writer_id_a, sequence_a);
    law_origin_layout(address_b, guid_prefix_b, writer_id_b, sequence_b);
    let (guid_a, guid_b) = (guid_prefix_a + writer_id_a, guid_prefix_b + writer_id_b);
    let start = seq!['d', 'd', 's', ':', '/', '/'];
    let front_a = start + address_a + seq!['/'] + hex_text(guid_a);
    let front_b = start + address_b + seq!['/'] + hex_text(guid_b);
    let (text_a, text_b) = (decimal_text(sequence_a), decimal_text(sequence_b));
    let a = front_a + seq!['?', 's', 'n', '='] + text_a;
    let b = front_b + seq!['?', 's', 'n', '='] + text_b;
    lemma_numbers_are_as_long(front_a, sequence_a, front_b, sequence_b);
    lemma_numbers_are_as_long(front_b, sequence_b, front_a, sequence_a);
    assert(hex_text(guid_a).len() == 32 && hex_text(guid_b).len() == 32);
    let end = 6 + address_a.len() as int;
    assert(a == b);
    assert(a.len() == 6 + address_a.len() + 1 + 32 + 4 + text_a.len());
    assert(b.len() == 6 + address_b.len() + 1 + 32 + 4 + text_b.len());
    assert(a.subrange(6, end) =~= address_a);
    assert(b.subrange(6, end) =~= address_b);
    assert(a.subrange(end + 1, end + 33) =~= hex_text(guid_a));
    assert(b.subrange(end + 1, end + 33) =~= hex_text(guid_b));
    assert(a.skip(end + 37) =~= text_a);
    assert(b.skip(end + 37) =~= text_b);
    law_hex_tells_bytes_apart(guid_a, guid_b);
    assert(guid_a.take(12) =~= guid_prefix_a && guid_b.take(12) =~= guid_prefix_b);
    assert(guid_a.skip(12) =~= writer_id_a && guid_b.skip(12) =~= writer_id_b);
    law_decimal_tells_numbers_apart(sequence_a, sequence_b);
}

} // verus!
