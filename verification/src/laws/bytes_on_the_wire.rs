//! Laws of the wire format: which byte stands where, stated on the bytes themselves.

use vstd::prelude::*;
use vstd::utf8::*;

use crate::laws::codec::identity_len;
use crate::number::{
    be_bytes, be_value, decimal, digit_char, lemma_be_bounds, lemma_be_bytes_len,
    lemma_be_round_trip,
};
use crate::socket::multipart;
use crate::text::{
    ascii_lower, debug_quoted, lemma_text_of_encoded, same_but_case, text_of, utf8_repaired,
};
use crate::wire::{
    announced_len, before_zero, command, decoded, encoded, flag_byte, greeting, greeting_check,
    header_len, lemma_command_words, lemma_encoded_len, lemma_null_bytes, lemma_ready_len,
    may_connect, null_mechanism, pong, properties, property, ready, reserved_set, subscription,
    CommandView, Decoded, Parsed, COMMAND, LONG, MORE,
};

verus! {

/// A number goes over the wire most significant byte first, in two, four or eight bytes.
#[verifier::rlimit(30)]
pub proof fn law_numbers_are_written_big_endian(n: nat)
    ensures
        be_bytes(n, 2) == seq![(n / 0x100 % 0x100) as u8, (n % 0x100) as u8],
        be_bytes(n, 4) == seq![
            (n / 0x100_0000 % 0x100) as u8,
            (n / 0x1_0000 % 0x100) as u8,
            (n / 0x100 % 0x100) as u8,
            (n % 0x100) as u8,
        ],
        be_bytes(n, 8) == seq![
            (n / 0x100_0000_0000_0000 % 0x100) as u8,
            (n / 0x1_0000_0000_0000 % 0x100) as u8,
            (n / 0x100_0000_0000 % 0x100) as u8,
            (n / 0x1_0000_0000 % 0x100) as u8,
            (n / 0x100_0000 % 0x100) as u8,
            (n / 0x1_0000 % 0x100) as u8,
            (n / 0x100 % 0x100) as u8,
            (n % 0x100) as u8,
        ],
{
    reveal_with_fuel(be_bytes, 9);
    assert(be_bytes(n, 2) =~= seq![(n / 0x100 % 0x100) as u8, (n % 0x100) as u8]);
}

/// A number is read from the wire most significant byte first, from two, four or eight bytes.
pub proof fn law_numbers_are_read_big_endian(s: Seq<u8>)
    ensures
        s.len() == 2 ==> be_value(s) == s[0] * 0x100 + s[1],
        s.len() == 4 ==> be_value(s) == s[0] * 0x100_0000 + s[1] * 0x1_0000 + s[2] * 0x100 + s[3],
        s.len() == 8 ==> be_value(s) == s[0] * 0x100_0000_0000_0000 + s[1] * 0x1_0000_0000_0000
            + s[2] * 0x100_0000_0000 + s[3] * 0x1_0000_0000 + s[4] * 0x100_0000 + s[5] * 0x1_0000
            + s[6] * 0x100 + s[7],
{
    reveal_with_fuel(be_value, 9);
}

/// The number that a decimal numeral stands for.
pub open spec fn reading(s: Seq<char>) -> nat
    decreases s.len(),
{
    if s.len() == 0 {
        0
    } else {
        reading(s.drop_last()) * 10 + (s.last() as u32 - '0' as u32) as nat
    }
}

/// A number in a message is written in decimal digits that stand for it, without leading zeros.
pub proof fn law_numerals_read_back(n: nat)
    ensures
        reading(decimal(n)) == n,
        decimal(n).len() > 0,
        forall|i: int| 0 <= i < decimal(n).len() ==> '0' <= #[trigger] decimal(n)[i] <= '9',
        decimal(n)[0] == '0' ==> n == 0,
        n < 10 ==> decimal(n).len() == 1,
    decreases n,
{
    if n >= 10 {
        law_numerals_read_back(n / 10);
        assert(decimal(n).drop_last() =~= decimal(n / 10));
        assert(decimal(n).last() == digit_char(n % 10));
    } else {
        assert(decimal(n).drop_last() =~= Seq::empty());
        assert(reading(decimal(n).drop_last()) == 0);
    }
}

/// Bytes that are UTF-8 stand for the text whose UTF-8 they are. Others are repaired.
pub proof fn law_text_is_utf8(bytes: Seq<u8>, text: Seq<char>)
    ensures
        text_of(encode_utf8(text)) == text,
        valid_utf8(bytes) ==> encode_utf8(text_of(bytes)) == bytes,
        !valid_utf8(bytes) ==> text_of(bytes) == utf8_repaired(bytes),
{
    lemma_text_of_encoded(text);
    if valid_utf8(bytes) {
        decode_utf8_encode_utf8(bytes);
    }
}

/// Two texts are the same but for case exactly where they are as long as each other and differ,
/// character by character, in nothing or in the case of an ASCII letter.
pub proof fn law_case_is_of_ascii_letters(a: Seq<char>, b: Seq<char>)
    ensures
        same_but_case(a, b) <==> a.len() == b.len() && forall|i: int|
            0 <= i < a.len() ==> {
                ||| #[trigger] a[i] == b[i]
                ||| 'A' <= a[i] <= 'Z' && b[i] as u32 == a[i] as u32 + 0x20
                ||| 'A' <= b[i] <= 'Z' && a[i] as u32 == b[i] as u32 + 0x20
            },
{
    if a.len() == b.len() {
        assert forall|i: int| 0 <= i < a.len() implies (ascii_lower(#[trigger] a[i]) == ascii_lower(
            b[i],
        )) == ({
            ||| a[i] == b[i]
            ||| 'A' <= a[i] <= 'Z' && b[i] as u32 == a[i] as u32 + 0x20
            ||| 'A' <= b[i] <= 'Z' && a[i] as u32 == b[i] as u32 + 0x20
        }) by {}
    }
}

/// Our greeting, byte by byte: the signature, version 3.1, `NULL`, and zeros everywhere else.
pub proof fn law_greeting_bytes()
    ensures
        greeting().len() == 64,
        greeting()[0] == 0xFF,
        greeting()[9] == 0x7F,
        greeting()[10] == 3,
        greeting()[11] == 1,
        greeting().subrange(12, 16) == seq![0x4Eu8, 0x55, 0x4C, 0x4C],
        forall|i: int| 1 <= i < 9 || 16 <= i < 64 ==> #[trigger] greeting()[i] == 0,
{
    lemma_null_bytes();
    assert(greeting().subrange(12, 16) =~= seq![0x4Eu8, 0x55, 0x4C, 0x4C]);
}

/// The mechanism field of a greeting is NULL exactly where it holds these bytes.
proof fn lemma_null_field(g: Seq<u8>)
    requires
        g.len() == 64,
    ensures
        (g.subrange(12, 32) == null_mechanism()) <==> g[12] == 0x4E && g[13] == 0x55 && g[14]
            == 0x4C && g[15] == 0x4C && forall|i: int| 16 <= i < 32 ==> #[trigger] g[i] == 0,
{
    lemma_null_bytes();
    let field = g.subrange(12, 32);
    let null = null_mechanism();
    assert(null.len() == 20);
    assert(null[0] == 0x4E && null[1] == 0x55 && null[2] == 0x4C && null[3] == 0x4C);
    if field == null {
        assert(g[12] == field[0] && g[13] == field[1] && g[14] == field[2] && g[15] == field[3]);
        assert forall|i: int| 16 <= i < 32 implies #[trigger] g[i] == 0 by {
            assert(g[i] == field[i - 12]);
            assert(null[i - 12] == 0);
        }
    }
    if g[12] == 0x4E && g[13] == 0x55 && g[14] == 0x4C && g[15] == 0x4C && forall|i: int|
        16 <= i < 32 ==> #[trigger] g[i] == 0 {
        assert forall|i: int| 0 <= i < 20 implies #[trigger] field[i] == null[i] by {
            assert(field[i] == g[i + 12]);
        }
        assert(field =~= null);
    }
}

/// A greeting is accepted exactly where its first byte is FF, its tenth byte is odd, its version
/// is 3.1 or later, and its mechanism is `NULL` and sixteen zeros. No other byte counts.
pub proof fn law_greeting_is_judged_by_its_bytes(g: Seq<u8>)
    requires
        g.len() == 64,
    ensures
        greeting_check(g) is Ok <==> {
            &&& g[0] == 0xFF
            &&& g[9] % 2 == 1
            &&& g[10] > 3 || (g[10] == 3 && g[11] >= 1)
            &&& g[12] == 0x4E && g[13] == 0x55 && g[14] == 0x4C && g[15] == 0x4C
            &&& forall|i: int| 16 <= i < 32 ==> #[trigger] g[i] == 0
        },
{
    lemma_null_field(g);
    let x = g[9];
    assert((x & 1 == 1) == (x % 2 == 1)) by (bit_vector);
}

/// Two greetings that agree in the bytes that count are answered alike, whatever their signature
/// padding and their filler hold.
pub proof fn law_padding_does_not_count(a: Seq<u8>, b: Seq<u8>)
    requires
        a.len() == 64,
        b.len() == 64,
        a[0] == b[0],
        forall|i: int| 9 <= i < 32 ==> #[trigger] a[i] == b[i],
    ensures
        greeting_check(a) == greeting_check(b),
{
    assert(a.subrange(12, 32) =~= b.subrange(12, 32));
}

/// What a greeting is refused for, in words: a bad signature first, then an early version, then
/// another mechanism, by the name that stands before the first zero of its field.
pub proof fn law_greeting_refusals(g: Seq<u8>, k: int)
    requires
        g.len() == 64,
        0 <= k <= 20,
        forall|i: int| 12 <= i < 12 + k ==> #[trigger] g[i] != 0,
        k == 20 || g[12 + k] == 0,
        greeting_check(g) is Err,
    ensures
        greeting_check(g)->Err_0 == if g[0] != 0xFF || g[9] % 2 == 0 {
            "not a ZMTP peer (bad signature)"@
        } else if g[10] < 3 || (g[10] == 3 && g[11] == 0) {
            "peer speaks ZMTP "@ + decimal(g[10] as nat) + "."@ + decimal(g[11] as nat)
                + "; zmtpmini requires 3.1"@
        } else {
            "peer requires security mechanism "@ + debug_quoted(text_of(g.subrange(12, 12 + k)))
                + "; only NULL is supported"@
        },
{
    let x = g[9];
    assert((x & 1 == 1) == (x % 2 == 1)) by (bit_vector);
    let field = g.subrange(12, 32);
    assert forall|i: int| 0 <= i < k implies #[trigger] field[i] != 0 by {
        assert(field[i] == g[i + 12]);
    }
    lemma_before_zero(field, k);
    assert(field.take(k) =~= g.subrange(12, 12 + k));
}

/// The run before the first zero is as long as it looks.
proof fn lemma_before_zero(s: Seq<u8>, k: int)
    requires
        0 <= k <= s.len(),
        forall|i: int| 0 <= i < k ==> #[trigger] s[i] != 0,
        k == s.len() || s[k] == 0,
    ensures
        before_zero(s) == k,
    decreases k,
{
    if k > 0 {
        let rest = s.skip(1);
        assert forall|i: int| 0 <= i < k - 1 implies #[trigger] rest[i] != 0 by {
            assert(rest[i] == s[i + 1]);
        }
        lemma_before_zero(rest, k - 1);
        assert(s[0] != 0);
    }
}

/// A frame, byte by byte: the flags (1 for more, 4 for a command, 2 for a long body), the length
/// of the body in one byte or, beyond 255, in eight, most significant first, and then the body as
/// it stands.
pub proof fn law_frame_bytes(body: Seq<u8>, more: bool, command: bool)
    requires
        body.len() <= u64::MAX,
    ensures
        ({
            let frame = encoded(body, more, command);
            let n = body.len();
            let flags = (if more { 1int } else { 0 }) + (if command { 4int } else { 0 });
            if n <= 255 {
                &&& frame.len() == 2 + n
                &&& frame[0] == flags
                &&& frame[1] == n
                &&& forall|i: int| 0 <= i < n ==> #[trigger] body[i] == frame[2 + i]
            } else {
                &&& frame.len() == 9 + n
                &&& frame[0] == flags + 2
                &&& frame[1] * 0x100_0000_0000_0000 + frame[2] * 0x1_0000_0000_0000 + frame[3]
                    * 0x100_0000_0000 + frame[4] * 0x1_0000_0000 + frame[5] * 0x100_0000
                    + frame[6] * 0x1_0000 + frame[7] * 0x100 + frame[8] == n
                &&& forall|i: int| 0 <= i < n ==> #[trigger] body[i] == frame[9 + i]
            }
        }),
{
    lemma_flags(more, command, body.len() > 255);
    lemma_encoded_len(body, more, command);
    let frame = encoded(body, more, command);
    if body.len() > 255 {
        let digits = be_bytes(body.len(), 8);
        lemma_be_bytes_len(body.len(), 8);
        lemma_be_bounds();
        lemma_be_round_trip(body.len(), 8);
        law_numbers_are_read_big_endian(digits);
        assert(frame[1] == digits[0] && frame[2] == digits[1] && frame[3] == digits[2]);
        assert(frame[4] == digits[3] && frame[5] == digits[4] && frame[6] == digits[5]);
        assert(frame[7] == digits[6] && frame[8] == digits[7]);
    }
}

/// The flags of a frame, as a number.
proof fn lemma_flags(more: bool, command: bool, long: bool)
    ensures
        flag_byte(more, command, long) == (if more { 1int } else { 0 }) + (if command {
            4int
        } else {
            0
        }) + (if long { 2int } else { 0 }),
{
    assert(0u8 | 0 | 0 == 0 && 1u8 | 0 | 0 == 1 && 0u8 | 4 | 0 == 4 && 1u8 | 4 | 0 == 5) by (bit_vector);
    assert(0u8 | 0 | 2 == 2 && 1u8 | 0 | 2 == 3 && 0u8 | 4 | 2 == 6 && 1u8 | 4 | 2 == 7) by (bit_vector);
}

/// The bits of a flag byte, as a number.
proof fn lemma_bits(flags: u8)
    ensures
        reserved_set(flags) == (flags >= 8),
        (flags & LONG != 0) == (flags / 2 % 2 == 1),
        flags < 8 ==> (flags & COMMAND != 0) == (flags >= 4),
        (flags & MORE != 0) == (flags % 2 == 1),
{
    assert((flags & !(1u8 | 2 | 4) != 0) == (flags >= 8)) by (bit_vector);
    assert((flags & 2 != 0) == (flags / 2 % 2 == 1)) by (bit_vector);
    assert(flags < 8 ==> (flags & 4 != 0) == (flags >= 4)) by (bit_vector);
    assert((flags & 1 != 0) == (flags % 2 == 1)) by (bit_vector);
}

/// How many bytes stand before the body, by the flags: nine where the second bit is set, else two.
pub open spec fn body_at(buf: Seq<u8>) -> int {
    if buf[0] / 2 % 2 == 1 {
        9
    } else {
        2
    }
}

/// How long the body is, by the bytes behind the flags.
pub open spec fn body_len(buf: Seq<u8>) -> int {
    if buf[0] / 2 % 2 == 1 {
        buf[1] * 0x100_0000_0000_0000 + buf[2] * 0x1_0000_0000_0000 + buf[3] * 0x100_0000_0000
            + buf[4] * 0x1_0000_0000 + buf[5] * 0x100_0000 + buf[6] * 0x1_0000 + buf[7] * 0x100
            + buf[8]
    } else {
        buf[1] as int
    }
}

/// What the header says, in numbers.
proof fn lemma_header_numbers(buf: Seq<u8>)
    requires
        buf.len() >= 2,
        buf.len() >= body_at(buf),
    ensures
        header_len(buf[0]) == body_at(buf),
        announced_len(buf) == body_len(buf),
{
    lemma_bits(buf[0]);
    if buf[0] / 2 % 2 == 1 {
        law_numbers_are_read_big_endian(buf.subrange(1, 9));
    }
}

/// A frame that is read holds the bytes behind its header, as they stand and as many as the
/// header announces. What follows is left as it stands. The lowest flag says whether more parts
/// follow, the third whether it is a command.
pub proof fn law_frame_is_read_as_it_stands(buf: Seq<u8>, max_frame: nat)
    ensures
        decoded(buf, max_frame) matches Decoded::Complete(frame, rest) ==> {
            let h = if buf[0] / 2 % 2 == 1 {
                9int
            } else {
                2
            };
            let n = if buf[0] / 2 % 2 == 1 {
                buf[1] * 0x100_0000_0000_0000 + buf[2] * 0x1_0000_0000_0000 + buf[3]
                    * 0x100_0000_0000 + buf[4] * 0x1_0000_0000 + buf[5] * 0x100_0000 + buf[6]
                    * 0x1_0000 + buf[7] * 0x100 + buf[8]
            } else {
                buf[1] as int
            };
            &&& buf.len() >= h + n
            &&& frame.body.len() == n
            &&& forall|i: int| 0 <= i < n ==> #[trigger] frame.body[i] == buf[h + i]
            &&& frame.more == (buf[0] % 2 == 1)
            &&& frame.command == (buf[0] / 4 % 2 == 1)
            &&& rest.len() == buf.len() - h - n
            &&& forall|i: int| 0 <= i < rest.len() ==> #[trigger] rest[i] == buf[h + n + i]
        },
{
    if decoded(buf, max_frame) is Complete {
        lemma_bits(buf[0]);
        let flags = buf[0];
        assert(flags < 8 ==> (flags / 4 % 2 == 1) == (flags >= 4)) by (bit_vector);
        lemma_header_numbers(buf);
    }
}

/// When a frame is read: once all its bytes have come, where no reserved flag is set and the
/// announced length is within the cap. A set reserved flag is refused as soon as two bytes have
/// come, a length over the cap as soon as the header has, and else more bytes are awaited.
pub proof fn law_when_a_frame_is_read(buf: Seq<u8>, max_frame: nat)
    ensures
        decoded(buf, max_frame) is Complete <==> {
            &&& buf.len() >= 2
            &&& buf[0] < 8
            &&& buf.len() >= body_at(buf) + body_len(buf)
            &&& body_len(buf) <= max_frame
        },
        decoded(buf, max_frame) is Refused <==> {
            &&& buf.len() >= 2
            &&& buf[0] >= 8 || (buf.len() >= body_at(buf) && body_len(buf) > max_frame)
        },
        decoded(buf, max_frame) matches Decoded::Refused(msg) ==> msg == if buf[0] >= 8 {
            "reserved frame flag bits set"@
        } else {
            "frame of "@ + decimal(body_len(buf) as nat) + " bytes exceeds cap of "@ + decimal(
                max_frame,
            )
        },
{
    if buf.len() >= 2 {
        lemma_bits(buf[0]);
        if buf.len() >= body_at(buf) {
            lemma_header_numbers(buf);
        }
    }
}

/// The answer to a PING, byte by byte: 04, `PONG`, and the context as it stands.
pub proof fn law_pong_bytes(context: Seq<u8>)
    ensures
        pong(context).len() == 5 + context.len(),
        pong(context).take(5) == seq![0x04u8, 0x50, 0x4F, 0x4E, 0x47],
        forall|i: int| 0 <= i < context.len() ==> #[trigger] context[i] == pong(context)[5 + i],
        pong(context).skip(5) == context,
{
    lemma_command_words();
    assert(pong(context).take(5) =~= seq![0x04u8, 0x50, 0x4F, 0x4E, 0x47]);
    assert(pong(context).skip(5) =~= context);
}

/// A subscription, byte by byte: 09, `SUBSCRIBE`, and the topic as it stands.
pub proof fn law_subscription_bytes(topic: Seq<u8>)
    ensures
        subscription(topic).len() == 10 + topic.len(),
        subscription(topic).take(10) == seq![
            0x09u8,
            0x53,
            0x55,
            0x42,
            0x53,
            0x43,
            0x52,
            0x49,
            0x42,
            0x45,
        ],
        forall|i: int| 0 <= i < topic.len() ==> #[trigger] topic[i] == subscription(topic)[10 + i],
        subscription(topic).skip(10) == topic,
{
    lemma_command_words();
    assert(subscription(topic).take(10) =~= seq![
        0x09u8,
        0x53,
        0x55,
        0x42,
        0x53,
        0x43,
        0x52,
        0x49,
        0x42,
        0x45,
    ]);
    assert(subscription(topic).skip(10) =~= topic);
}

/// Two different topics never give the same subscription.
pub proof fn law_topics_are_told_apart(a: Seq<u8>, b: Seq<u8>)
    requires
        a != b,
    ensures
        subscription(a) != subscription(b),
{
    law_subscription_bytes(a);
    law_subscription_bytes(b);
}

/// The bytes of the property names.
proof fn lemma_name_bytes()
    ensures
        encode_utf8("Socket-Type"@) == seq![
            0x53u8,
            0x6F,
            0x63,
            0x6B,
            0x65,
            0x74,
            0x2D,
            0x54,
            0x79,
            0x70,
            0x65,
        ],
        encode_utf8("Identity"@) == seq![0x49u8, 0x64, 0x65, 0x6E, 0x74, 0x69, 0x74, 0x79],
{
    reveal_strlit("Socket-Type");
    reveal_strlit("Identity");
    is_ascii_chars_encode_utf8("Socket-Type"@);
    is_ascii_chars_encode_utf8("Identity"@);
    assert(encode_utf8("Socket-Type"@) =~= seq![
        0x53u8,
        0x6F,
        0x63,
        0x6B,
        0x65,
        0x74,
        0x2D,
        0x54,
        0x79,
        0x70,
        0x65,
    ]);
    assert(encode_utf8("Identity"@) =~= seq![0x49u8, 0x64, 0x65, 0x6E, 0x74, 0x69, 0x74, 0x79]);
}

/// A property, byte by byte: the length of its name, the name, the low four bytes of the length
/// of its value, most significant first, and then the value as it stands.
pub proof fn law_property_bytes(name: Seq<char>, value: Seq<u8>)
    requires
        encode_utf8(name).len() <= 255,
        value.len() <= u64::MAX,
    ensures
        ({
            let p = property(name, value);
            let k = encode_utf8(name).len() as int;
            let n = value.len();
            &&& p.len() == 5 + k + n
            &&& p[0] == k
            &&& p.subrange(1, 1 + k) == encode_utf8(name)
            &&& p[1 + k] == n / 0x100_0000 % 0x100
            &&& p[2 + k] == n / 0x1_0000 % 0x100
            &&& p[3 + k] == n / 0x100 % 0x100
            &&& p[4 + k] == n % 0x100
            &&& forall|i: int| 0 <= i < n ==> #[trigger] value[i] == p[5 + k + i]
        }),
{
    let p = property(name, value);
    let k = encode_utf8(name).len() as int;
    let n = value.len();
    let low = (n as u32) as nat;
    lemma_low_bits(n);
    lemma_be_bytes_len(low, 4);
    law_numbers_are_written_big_endian(low);
    let digits = be_bytes(low, 4);
    assert(p.subrange(1, 1 + k) =~= encode_utf8(name));
    assert(p[1 + k] == digits[0] && p[2 + k] == digits[1]);
    assert(p[3 + k] == digits[2] && p[4 + k] == digits[3]);
}

/// Cutting a length down to four bytes keeps its low four bytes.
proof fn lemma_low_bits(n: nat)
    requires
        n <= u64::MAX,
    ensures
        (n as u32) as nat / 0x100_0000 % 0x100 == n / 0x100_0000 % 0x100,
        (n as u32) as nat / 0x1_0000 % 0x100 == n / 0x1_0000 % 0x100,
        (n as u32) as nat / 0x100 % 0x100 == n / 0x100 % 0x100,
        (n as u32) as nat % 0x100 == n % 0x100,
{
    let m = n as u64;
    let low = (n as u32) as u64;
    assert(low == m & 0xFFFF_FFFF) by (bit_vector)
        requires
            low == (m as u32) as u64,
    ;
    assert(low / 0x100_0000 % 0x100 == m / 0x100_0000 % 0x100 && low / 0x1_0000 % 0x100 == m
        / 0x1_0000 % 0x100 && low / 0x100 % 0x100 == m / 0x100 % 0x100 && low % 0x100 == m % 0x100)
        by (bit_vector)
        requires
            low == m & 0xFFFF_FFFF,
    ;
}

/// Our READY, byte by byte: 05, `READY`, then 0B, `Socket-Type`, four bytes of length and our
/// socket type, and then, for an identity, 08, `Identity`, four bytes of length and the identity
/// as it stands. Nothing follows.
pub proof fn law_ready_bytes(socket_type: Seq<char>, identity: Option<Seq<u8>>)
    requires
        encode_utf8(socket_type).len() <= u64::MAX,
        identity_len(identity) <= u64::MAX,
    ensures
        ({
            let r = ready(socket_type, identity);
            let v = encode_utf8(socket_type);
            let n = v.len();
            let end = 22 + n as int;
            &&& r.take(6) == seq![0x05u8, 0x52, 0x45, 0x41, 0x44, 0x59]
            &&& r.subrange(6, 18) == seq![
                0x0Bu8,
                0x53,
                0x6F,
                0x63,
                0x6B,
                0x65,
                0x74,
                0x2D,
                0x54,
                0x79,
                0x70,
                0x65,
            ]
            &&& r[18] == n / 0x100_0000 % 0x100
            &&& r[19] == n / 0x1_0000 % 0x100
            &&& r[20] == n / 0x100 % 0x100
            &&& r[21] == n % 0x100
            &&& r.subrange(22, end) == v
            &&& match identity {
                None => r.len() == end,
                Some(id) => {
                    &&& r.len() == end + 13 + id.len()
                    &&& r.subrange(end, end + 9) == seq![
                        0x08u8,
                        0x49,
                        0x64,
                        0x65,
                        0x6E,
                        0x74,
                        0x69,
                        0x74,
                        0x79,
                    ]
                    &&& r[end + 9] == id.len() / 0x100_0000 % 0x100
                    &&& r[end + 10] == id.len() / 0x1_0000 % 0x100
                    &&& r[end + 11] == id.len() / 0x100 % 0x100
                    &&& r[end + 12] == id.len() % 0x100
                    &&& forall|i: int|
                        0 <= i < id.len() ==> #[trigger] id[i] == r[end + 13 + i]
                    &&& r.skip(r.len() - id.len()) == id
                },
            }
        }),
{
    lemma_ready_len(socket_type, identity);
    lemma_ready_type(socket_type, identity);
    if let Some(id) = identity {
        lemma_ready_identity(socket_type, id);
    }
}

/// The socket type in a READY.
#[verifier::rlimit(30)]
proof fn lemma_ready_type(socket_type: Seq<char>, identity: Option<Seq<u8>>)
    requires
        encode_utf8(socket_type).len() <= u64::MAX,
    ensures
        ({
            let r = ready(socket_type, identity);
            let n = encode_utf8(socket_type).len();
            &&& r.take(6) == seq![0x05u8, 0x52, 0x45, 0x41, 0x44, 0x59]
            &&& r.subrange(6, 18) == seq![
                0x0Bu8,
                0x53,
                0x6F,
                0x63,
                0x6B,
                0x65,
                0x74,
                0x2D,
                0x54,
                0x79,
                0x70,
                0x65,
            ]
            &&& r[18] == n / 0x100_0000 % 0x100
            &&& r[19] == n / 0x1_0000 % 0x100
            &&& r[20] == n / 0x100 % 0x100
            &&& r[21] == n % 0x100
            &&& r.subrange(22, 22 + n as int) == encode_utf8(socket_type)
        }),
{
    let r = ready(socket_type, identity);
    let v = encode_utf8(socket_type);
    let end = 22 + v.len() as int;
    let word = seq![0x05u8, 0x52, 0x45, 0x41, 0x44, 0x59];
    let typed = property("Socket-Type"@, v);
    lemma_ready_len(socket_type, identity);
    assert(seq![5u8] + encode_utf8("READY"@) =~= word) by {
        lemma_command_words();
    }
    lemma_name_bytes();
    lemma_named_property("Socket-Type"@, v);
    assert(r.take(6) =~= word);
    assert(r.subrange(6, end) =~= typed);
    lemma_part(r, 6, end, typed);
    assert(r.subrange(6, 18) =~= typed.take(12));
    assert(r.subrange(22, end) =~= typed.skip(16));
}

/// The identity in a READY.
#[verifier::rlimit(30)]
proof fn lemma_ready_identity(socket_type: Seq<char>, id: Seq<u8>)
    requires
        id.len() <= u64::MAX,
    ensures
        ({
            let r = ready(socket_type, Some(id));
            let end = 22 + encode_utf8(socket_type).len() as int;
            &&& r.subrange(end, end + 9) == seq![
                0x08u8,
                0x49,
                0x64,
                0x65,
                0x6E,
                0x74,
                0x69,
                0x74,
                0x79,
            ]
            &&& r[end + 9] == id.len() / 0x100_0000 % 0x100
            &&& r[end + 10] == id.len() / 0x1_0000 % 0x100
            &&& r[end + 11] == id.len() / 0x100 % 0x100
            &&& r[end + 12] == id.len() % 0x100
            &&& forall|i: int| 0 <= i < id.len() ==> #[trigger] id[i] == r[end + 13 + i]
            &&& r.skip(end + 13) == id
        }),
{
    let r = ready(socket_type, Some(id));
    let end = 22 + encode_utf8(socket_type).len() as int;
    let named = property("Identity"@, id);
    lemma_ready_len(socket_type, Some(id));
    lemma_ready_len(socket_type, None);
    lemma_name_bytes();
    lemma_named_property("Identity"@, id);
    assert(r =~= ready(socket_type, None) + named);
    assert(r.subrange(end, r.len() as int) =~= named);
    lemma_part(r, end, r.len() as int, named);
    assert(r.subrange(end, end + 9) =~= named.take(9));
    assert(r.skip(end + 13) =~= named.skip(13));
    assert forall|i: int| 0 <= i < id.len() implies #[trigger] id[i] == r[end + 13 + i] by {
        assert(r.skip(end + 13)[i] == id[i]);
    }
}

/// A property in its three parts: the name behind its length, the length of the value, and the
/// value.
proof fn lemma_named_property(name: Seq<char>, value: Seq<u8>)
    requires
        encode_utf8(name).len() <= 255,
        value.len() <= u64::MAX,
    ensures
        ({
            let p = property(name, value);
            let k = encode_utf8(name).len() as int;
            let n = value.len();
            &&& p.len() == 5 + k + n
            &&& p.take(1 + k) == seq![k as u8] + encode_utf8(name)
            &&& p[1 + k] == n / 0x100_0000 % 0x100
            &&& p[2 + k] == n / 0x1_0000 % 0x100
            &&& p[3 + k] == n / 0x100 % 0x100
            &&& p[4 + k] == n % 0x100
            &&& p.skip(5 + k) == value
        }),
{
    let p = property(name, value);
    let k = encode_utf8(name).len() as int;
    law_property_bytes(name, value);
    assert(p.take(1 + k) =~= seq![k as u8] + encode_utf8(name));
    assert(p.skip(5 + k) =~= value);
}

/// A part of a run of bytes is found again in it, index by index.
proof fn lemma_part(whole: Seq<u8>, start: int, end: int, part: Seq<u8>)
    requires
        0 <= start <= end <= whole.len(),
        whole.subrange(start, end) == part,
    ensures
        forall|i: int| 0 <= i < end - start ==> #[trigger] part[i] == whole[start + i],
        part.len() == end - start,
        part.len() > 4 ==> part[4] == whole[start + 4],
        part.len() > 12 ==> part[9] == whole[start + 9] && part[10] == whole[start + 10]
            && part[11] == whole[start + 11] && part[12] == whole[start + 12],
        part.len() > 15 ==> part[13] == whole[start + 13] && part[14] == whole[start + 14]
            && part[15] == whole[start + 15],
{
}

/// The first letters of a command, against those of a known one.
proof fn lemma_known(body: Seq<u8>, word: Seq<u8>)
    requires
        body.len() >= 1,
        body.len() >= 1 + body[0],
        word.len() <= 255,
    ensures
        (body.subrange(1, 1 + body[0]) == word) <==> body.take(1 + word.len() as int) == seq![
            word.len() as u8,
        ] + word && body.len() >= 1 + word.len(),
{
    let k = word.len() as int;
    let name = body.subrange(1, 1 + body[0]);
    let start = seq![word.len() as u8] + word;
    if name == word {
        assert(body[0] == k);
        assert forall|i: int| 0 <= i < 1 + k implies #[trigger] start[i] == body[i] by {
            if i > 0 {
                assert(start[i] == word[i - 1]);
                assert(word[i - 1] == name[i - 1]);
            }
        }
        assert(body.take(1 + k) =~= start);
    }
    if body.len() >= 1 + k && body.take(1 + k) == start {
        assert(body[0] == body.take(1 + k)[0]);
        assert(start[0] == word.len() as u8);
        assert forall|i: int| 0 <= i < k implies #[trigger] name[i] == word[i] by {
            assert(name[i] == body.take(1 + k)[1 + i]);
            assert(start[1 + i] == word[i]);
        }
        assert(name =~= word);
    }
}

/// Which command a body is, by its first bytes: 04 `PING`, 05 `ERROR`, 05 `READY`, or another.
/// A body that is shorter than its first byte says is no command.
pub proof fn law_commands_are_told_by_their_first_bytes(body: Seq<u8>)
    ensures
        body.len() == 0 || body.len() < 1 + body[0] ==> command(body) == Parsed::<CommandView>::Err(
            "truncated command name"@,
        ),
        body.len() > 0 && body.len() >= 1 + body[0] ==> {
            let pings = body.len() >= 5 && body.take(5) == seq![0x04u8, 0x50, 0x49, 0x4E, 0x47];
            let fails = body.len() >= 6 && body.take(6) == seq![
                0x05u8,
                0x45,
                0x52,
                0x52,
                0x4F,
                0x52,
            ];
            let ready = body.len() >= 6 && body.take(6) == seq![
                0x05u8,
                0x52,
                0x45,
                0x41,
                0x44,
                0x59,
            ];
            &&& command(body) matches Ok(c) ==> {
                &&& c is Ping <==> pings
                &&& c is Error <==> fails
                &&& c is Ready <==> ready
            }
            &&& !pings && !fails && !ready ==> command(body) == Parsed::Ok(CommandView::Other)
        },
{
    lemma_command_words();
    reveal_strlit("truncated ");
    reveal_strlit("command name");
    reveal_strlit("truncated command name");
    assert("truncated "@ + "command name"@ =~= "truncated command name"@);
    if body.len() > 0 && body.len() >= 1 + body[0] {
        let pinging = encode_utf8("PING"@);
        let failing = encode_utf8("ERROR"@);
        let readying = encode_utf8("READY"@);
        lemma_known(body, pinging);
        lemma_known(body, failing);
        lemma_known(body, readying);
        assert(seq![4u8] + pinging =~= seq![0x04u8, 0x50, 0x49, 0x4E, 0x47]);
        assert(seq![5u8] + failing =~= seq![0x05u8, 0x45, 0x52, 0x52, 0x4F, 0x52]);
        assert(seq![5u8] + readying =~= seq![0x05u8, 0x52, 0x45, 0x41, 0x44, 0x59]);
        assert(failing[0] != readying[0] && failing[0] != pinging[0]);
        assert(readying[0] != pinging[0]);
    }
}

/// A PING carries its time to live in two bytes, and all the bytes behind them as its context.
pub proof fn law_ping_bytes(body: Seq<u8>)
    requires
        body.len() >= 5,
        body.take(5) == seq![0x04u8, 0x50, 0x49, 0x4E, 0x47],
    ensures
        body.len() < 7 ==> command(body) == Parsed::<CommandView>::Err("truncated PING"@),
        body.len() >= 7 ==> (command(body) matches Ok(CommandView::Ping { ttl, context }) && {
            &&& ttl == body[5] * 0x100 + body[6]
            &&& context.len() == body.len() - 7
            &&& forall|i: int| 0 <= i < context.len() ==> #[trigger] context[i] == body[7 + i]
        }),
{
    lemma_command_words();
    let word = encode_utf8("PING"@);
    assert(body[0] == body.take(5)[0]);
    assert(seq![4u8] + word =~= seq![0x04u8, 0x50, 0x49, 0x4E, 0x47]);
    lemma_known(body, word);
    assert(word[0] != encode_utf8("READY"@)[0] && word[0] != encode_utf8("ERROR"@)[0]);
    if body.len() >= 7 {
        law_numbers_are_read_big_endian(body.skip(5).take(2));
    }
}

/// An ERROR carries its reason behind the reason's length. What follows does not count.
pub proof fn law_error_bytes(body: Seq<u8>)
    requires
        body.len() >= 6,
        body.take(6) == seq![0x05u8, 0x45, 0x52, 0x52, 0x4F, 0x52],
    ensures
        command(body) == if body.len() == 6 || body.len() < 7 + body[6] {
            Parsed::Err("truncated error reason"@)
        } else {
            Parsed::Ok(CommandView::Error(text_of(body.subrange(7, 7 + body[6]))))
        },
{
    lemma_command_words();
    reveal_strlit("truncated ");
    reveal_strlit("error reason");
    reveal_strlit("truncated error reason");
    assert("truncated "@ + "error reason"@ =~= "truncated error reason"@);
    let word = encode_utf8("ERROR"@);
    assert(body[0] == body.take(6)[0]);
    assert(seq![5u8] + word =~= seq![0x05u8, 0x45, 0x52, 0x52, 0x4F, 0x52]);
    lemma_known(body, word);
    assert(word[0] != encode_utf8("READY"@)[0]);
    let rest = body.skip(6);
    if body.len() > 6 && body.len() >= 7 + body[6] {
        assert(rest[0] == body[6]);
        assert(rest.subrange(1, 1 + rest[0]) =~= body.subrange(7, 7 + body[6]));
    }
}

/// A READY without a property announces nothing. A READY with properties announces its first
/// property, the name behind its length and the value behind its four bytes of length, and then
/// what a READY with only the others announces.
pub proof fn law_ready_is_read_property_by_property(body: Seq<u8>)
    requires
        body.len() >= 6,
        body.take(6) == seq![0x05u8, 0x52, 0x45, 0x41, 0x44, 0x59],
    ensures
        body.len() == 6 ==> command(body) == Parsed::Ok(CommandView::Ready(Seq::empty())),
        body.len() > 6 ==> {
            let k = body[6] as int;
            let n = body[7 + k] * 0x100_0000 + body[8 + k] * 0x1_0000 + body[9 + k] * 0x100
                + body[10 + k];
            let others = body.take(6) + body.skip(11 + k + n);
            if body.len() < 7 + k {
                command(body) == Parsed::<CommandView>::Err("truncated metadata name"@)
            } else if body.len() < 11 + k || body.len() < 11 + k + n {
                command(body) == Parsed::<CommandView>::Err("truncated metadata value"@)
            } else {
                match command(others) {
                    Err(msg) => command(body) == Parsed::<CommandView>::Err(msg),
                    Ok(CommandView::Ready(meta)) => command(body) == Parsed::Ok(
                        CommandView::Ready(
                            seq![
                                (
                                    text_of(body.subrange(7, 7 + k)),
                                    body.subrange(11 + k, 11 + k + n),
                                ),
                            ] + meta,
                        ),
                    ),
                    Ok(_) => false,
                }
            }
        },
{
    lemma_command_words();
    reveal_strlit("truncated ");
    reveal_strlit("metadata name");
    reveal_strlit("truncated metadata name");
    assert("truncated "@ + "metadata name"@ =~= "truncated metadata name"@);
    let word = encode_utf8("READY"@);
    assert(seq![5u8] + word =~= seq![0x05u8, 0x52, 0x45, 0x41, 0x44, 0x59]);
    lemma_ready_body(body);
    let list = body.skip(6);
    if body.len() > 6 {
        let k = body[6] as int;
        assert(list[0] == body[6]);
        if body.len() >= 7 + k {
            let rest = list.skip(1 + k);
            assert(list.subrange(1, 1 + k) =~= body.subrange(7, 7 + k));
            if body.len() >= 11 + k {
                law_numbers_are_read_big_endian(rest.take(4));
                let n = be_value(rest.take(4)) as int;
                assert(rest.take(4)[0] == body[7 + k] && rest.take(4)[1] == body[8 + k]);
                assert(rest.take(4)[2] == body[9 + k] && rest.take(4)[3] == body[10 + k]);
                if body.len() >= 11 + k + n {
                    let others = body.take(6) + body.skip(11 + k + n);
                    assert(rest.subrange(4, 4 + n) =~= body.subrange(11 + k, 11 + k + n));
                    assert(rest.skip(4 + n) =~= body.skip(11 + k + n));
                    assert(others.take(6) =~= body.take(6));
                    assert(others.skip(6) =~= body.skip(11 + k + n));
                    lemma_ready_body(others);
                }
            }
        }
    }
}

/// A body that starts with 05 `READY` is a READY with the properties behind these bytes.
proof fn lemma_ready_body(body: Seq<u8>)
    requires
        body.len() >= 6,
        body.take(6) == seq![0x05u8, 0x52, 0x45, 0x41, 0x44, 0x59],
    ensures
        command(body) == match properties(body.skip(6)) {
            Ok(meta) => Parsed::Ok(CommandView::Ready(meta)),
            Err(msg) => Parsed::Err(msg),
        },
{
    lemma_command_words();
    let word = encode_utf8("READY"@);
    assert(seq![5u8] + word =~= seq![0x05u8, 0x52, 0x45, 0x41, 0x44, 0x59]);
    assert(body[0] == body.take(6)[0]);
    lemma_known(body, word);
}

/// Who may connect: to a DEALER a ROUTER, a DEALER and a REP, to a SUB a PUB and an XPUB, and to
/// any other type nobody.
pub proof fn law_who_may_connect(ours: Seq<char>, theirs: Seq<char>)
    ensures
        may_connect("DEALER"@, theirs) <==> theirs == "ROUTER"@ || theirs == "DEALER"@ || theirs
            == "REP"@,
        may_connect("SUB"@, theirs) <==> theirs == "PUB"@ || theirs == "XPUB"@,
        ours != "DEALER"@ && ours != "SUB"@ ==> !may_connect(ours, theirs),
{
    reveal_strlit("DEALER");
    reveal_strlit("SUB");
    assert("DEALER"@.len() != "SUB"@.len());
}

/// A multipart message is its parts in order, each in a frame of its own. All frames but the last
/// say that more follow, and no parts are no bytes.
pub proof fn law_multipart_is_its_parts_in_order(parts: Seq<Seq<u8>>, last: Seq<u8>)
    ensures
        multipart(Seq::empty()) == Seq::<u8>::empty(),
        multipart(seq![last]) == encoded(last, false, false),
        parts.len() > 0 ==> multipart(seq![last] + parts) == encoded(last, true, false)
            + multipart(parts),
{
    let one = seq![last];
    assert(one.skip(1) =~= Seq::empty());
    assert(multipart(one.skip(1)) =~= Seq::empty());
    assert(encoded(last, false, false) + Seq::<u8>::empty() =~= encoded(last, false, false));
    assert((one + parts).skip(1) =~= parts);
    assert((one + parts)[0] == last);
}

} // verus!
