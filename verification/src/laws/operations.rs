//! Laws of the operations of the codec: what a call gives back, stated on the bytes that go in
//! and come out. `call_ensures(f, args, r)` says that `r` may come back of calling `f` on `args`.

use bytes::{Bytes, BytesMut};
use vstd::prelude::*;
use vstd::utf8::*;

use crate::buffer::{buffer_of, bytes_of};
use crate::error::{io_failure, perr, Error, Result};
use crate::laws::bytes_on_the_wire::{
    body_at, body_len, law_commands_are_told_by_their_first_bytes, law_error_bytes,
    law_frame_bytes, law_frame_is_read_as_it_stands, law_greeting_bytes,
    law_greeting_is_judged_by_its_bytes, law_greeting_refusals, law_numbers_are_read_big_endian,
    law_numerals_read_back, law_ping_bytes, law_pong_bytes, law_ready_bytes,
    law_ready_is_read_property_by_property, law_subscription_bytes, law_when_a_frame_is_read,
    law_who_may_connect, reading,
};
use crate::number::{decimal, decimal_string, read_u64};
use crate::socket::{check_peer_type, handshake_rejected, peer_error};
use crate::text::{bytes_eq, debug_quoted, str_eq, text_of};
use crate::wire::{
    check_greeting, command, compatible, decode_frame, decoded, encode_frame, encode_greeting,
    encoded, meta_view, parse_command, pong_command, ready_command, subscribe_command,
    unsupported_mechanism, Command, CommandView, Decoded, RawFrame, GREETING_LEN,
};

verus! {

/// Our greeting is FF, eight zeros, 7F, version 3.1, `NULL`, and zeros up to 64 bytes.
pub proof fn law_encode_greeting(g: [u8; GREETING_LEN])
    requires
        call_ensures(encode_greeting, (), g),
    ensures
        g@.len() == 64,
        g@[0] == 0xFF && g@[9] == 0x7F && g@[10] == 3 && g@[11] == 1,
        g@[12] == 0x4E && g@[13] == 0x55 && g@[14] == 0x4C && g@[15] == 0x4C,
        forall|i: int| 1 <= i < 9 || 16 <= i < 64 ==> #[trigger] g@[i] == 0,
{
    law_greeting_bytes();
    let name = g@.subrange(12, 16);
    assert(g@[12] == name[0] && g@[13] == name[1] && g@[14] == name[2] && g@[15] == name[3]);
}

/// A peer's greeting is accepted exactly by its first byte, the lowest bit of its tenth, its
/// version and its mechanism. The signature padding and the filler do not count.
pub proof fn law_check_greeting(g: [u8; GREETING_LEN], r: Result<()>)
    requires
        call_ensures(check_greeting, (&g,), r),
    ensures
        r is Ok <==> {
            &&& g@[0] == 0xFF
            &&& g@[9] % 2 == 1
            &&& g@[10] > 3 || (g@[10] == 3 && g@[11] >= 1)
            &&& g@[12] == 0x4E && g@[13] == 0x55 && g@[14] == 0x4C && g@[15] == 0x4C
            &&& forall|i: int| 16 <= i < 32 ==> #[trigger] g@[i] == 0
        },
{
    law_greeting_is_judged_by_its_bytes(g@);
}

/// A greeting that is refused is refused for its signature, its version, or its mechanism, in
/// this order. `k` is the length of the mechanism's name.
pub proof fn law_check_greeting_refusals(g: [u8; GREETING_LEN], r: Result<()>, k: int)
    requires
        call_ensures(check_greeting, (&g,), r),
        0 <= k <= 20,
        forall|i: int| 12 <= i < 12 + k ==> #[trigger] g@[i] != 0,
        k == 20 || g@[12 + k] == 0,
    ensures
        r matches Err(e) ==> (e matches Error::Protocol(m) && m@ == if g@[0] != 0xFF || g@[9] % 2
            == 0 {
            "not a ZMTP peer (bad signature)"@
        } else if g@[10] < 3 || (g@[10] == 3 && g@[11] == 0) {
            "peer speaks ZMTP "@ + decimal(g@[10] as nat) + "."@ + decimal(g@[11] as nat)
                + "; zmtpmini requires 3.1"@
        } else {
            "peer requires security mechanism "@ + debug_quoted(text_of(g@.subrange(12, 12 + k)))
                + "; only NULL is supported"@
        }),
{
    if r is Err {
        law_greeting_refusals(g@, k);
    }
}

/// A frame is appended behind what was there: flags, length, and the body as it stands.
pub proof fn law_encode_frame(body: &[u8], more: bool, command: bool, out: &mut BytesMut)
    requires
        call_ensures(encode_frame, (body, more, command, out), ()),
        body@.len() <= u64::MAX,
    ensures
        ({
            let was = buffer_of(*old(out));
            let is = buffer_of(*final(out));
            let at = was.len() as int;
            let n = body@.len() as int;
            let flags = (if more { 1int } else { 0 }) + (if command { 4int } else { 0 });
            &&& is.take(at) == was
            &&& n <= 255 ==> {
                &&& is.len() == at + 2 + n
                &&& is[at] == flags
                &&& is[at + 1] == n
                &&& is.skip(at + 2) == body@
            }
            &&& n > 255 ==> {
                &&& is.len() == at + 9 + n
                &&& is[at] == flags + 2
                &&& is[at + 1] * 0x100_0000_0000_0000 + is[at + 2] * 0x1_0000_0000_0000
                    + is[at + 3] * 0x100_0000_0000 + is[at + 4] * 0x1_0000_0000 + is[at + 5]
                    * 0x100_0000 + is[at + 6] * 0x1_0000 + is[at + 7] * 0x100 + is[at + 8] == n
                &&& is.skip(at + 9) == body@
            }
        }),
{
    let was = buffer_of(*old(out));
    let is = buffer_of(*final(out));
    let frame = encoded(body@, more, command);
    let at = was.len() as int;
    law_frame_bytes(body@, more, command);
    assert(is =~= was + frame);
    assert(is.take(at) =~= was);
    assert forall|i: int| 0 <= i < frame.len() implies #[trigger] frame[i] == is[at + i] by {}
    if body@.len() <= 255 {
        assert(frame[0] == is[at] && frame[1] == is[at + 1]);
        assert forall|i: int| 0 <= i < body@.len() implies #[trigger] body@[i] == is[at + 2 + i] by {
            assert(frame[2 + i] == is[at + (2 + i)]);
        }
        assert(is.skip(at + 2) =~= body@);
    } else {
        assert(frame[0] == is[at] && frame[1] == is[at + 1] && frame[2] == is[at + 2]);
        assert(frame[3] == is[at + 3] && frame[4] == is[at + 4] && frame[5] == is[at + 5]);
        assert(frame[6] == is[at + 6] && frame[7] == is[at + 7] && frame[8] == is[at + 8]);
        assert forall|i: int| 0 <= i < body@.len() implies #[trigger] body@[i] == is[at + 9 + i] by {
            assert(frame[9 + i] == is[at + (9 + i)]);
        }
        assert(is.skip(at + 9) =~= body@);
    }
}

/// A frame that is decoded has the bytes behind its header for its body, as they stand and as
/// many as the header announces, and exactly header and body are taken off the buffer.
pub proof fn law_decode_frame(buf: &mut BytesMut, max_frame: usize, r: Result<Option<RawFrame>>)
    requires
        call_ensures(decode_frame, (buf, max_frame), r),
    ensures
        r matches Ok(Some(f)) ==> {
            let was = buffer_of(*old(buf));
            let h = if was[0] / 2 % 2 == 1 {
                9int
            } else {
                2
            };
            let n = if was[0] / 2 % 2 == 1 {
                was[1] * 0x100_0000_0000_0000 + was[2] * 0x1_0000_0000_0000 + was[3]
                    * 0x100_0000_0000 + was[4] * 0x1_0000_0000 + was[5] * 0x100_0000 + was[6]
                    * 0x1_0000 + was[7] * 0x100 + was[8]
            } else {
                was[1] as int
            };
            &&& was.len() >= h + n
            &&& bytes_of(f.body) == was.subrange(h, h + n)
            &&& f.more == (was[0] % 2 == 1)
            &&& f.command == (was[0] / 4 % 2 == 1)
            &&& buffer_of(*final(buf)) == was.skip(h + n)
        },
        !(r matches Ok(Some(_))) ==> buffer_of(*final(buf)) == buffer_of(*old(buf)),
{
    let was = buffer_of(*old(buf));
    law_frame_is_read_as_it_stands(was, max_frame as nat);
    if let Decoded::Complete(frame, rest) = decoded(was, max_frame as nat) {
        let h = body_at(was);
        let n = body_len(was);
        assert(frame.body =~= was.subrange(h, h + n));
        assert(rest =~= was.skip(h + n));
    }
}

/// A frame is decoded once all its bytes have come, refused for a reserved flag or for a length
/// over the cap as soon as that shows, and awaited otherwise.
pub proof fn law_decode_frame_waits_or_refuses(
    buf: &mut BytesMut,
    max_frame: usize,
    r: Result<Option<RawFrame>>,
)
    requires
        call_ensures(decode_frame, (buf, max_frame), r),
    ensures
        ({
            let was = buffer_of(*old(buf));
            let whole = was.len() >= 2 && was.len() >= body_at(was);
            &&& (r matches Ok(Some(_))) <==> {
                &&& whole
                &&& was[0] < 8
                &&& body_len(was) <= max_frame
                &&& was.len() >= body_at(was) + body_len(was)
            }
            &&& r is Err <==> was.len() >= 2 && (was[0] >= 8 || (whole && body_len(was)
                > max_frame))
            &&& r matches Err(e) ==> (e matches Error::Protocol(m) && m@ == if was[0] >= 8 {
                "reserved frame flag bits set"@
            } else {
                "frame of "@ + decimal(body_len(was) as nat) + " bytes exceeds cap of "@ + decimal(
                    max_frame as nat,
                )
            })
        }),
{
    law_when_a_frame_is_read(buffer_of(*old(buf)), max_frame as nat);
}

/// A command is what its first bytes say, and a body that ends within them is refused.
pub proof fn law_parse_command(body: Bytes, r: Result<Command>)
    requires
        call_ensures(parse_command, (&body,), r),
    ensures
        ({
            let b = bytes_of(body);
            let pings = b.len() >= 5 && b.take(5) == seq![0x04u8, 0x50, 0x49, 0x4E, 0x47];
            let fails = b.len() >= 6 && b.take(6) == seq![0x05u8, 0x45, 0x52, 0x52, 0x4F, 0x52];
            let ready = b.len() >= 6 && b.take(6) == seq![0x05u8, 0x52, 0x45, 0x41, 0x44, 0x59];
            if b.len() == 0 || b.len() < 1 + b[0] {
                r matches Err(Error::Protocol(m)) && m@ == "truncated command name"@
            } else if pings {
                if b.len() < 7 {
                    r matches Err(Error::Protocol(m)) && m@ == "truncated PING"@
                } else {
                    r matches Ok(Command::Ping { ttl, context }) && ttl == b[5] * 0x100 + b[6]
                        && bytes_of(context) == b.skip(7)
                }
            } else if fails {
                if b.len() == 6 || b.len() < 7 + b[6] {
                    r matches Err(Error::Protocol(m)) && m@ == "truncated error reason"@
                } else {
                    r matches Ok(Command::Error(reason)) && reason@ == text_of(
                        b.subrange(7, 7 + b[6]),
                    )
                }
            } else if ready {
                r matches Ok(c) ==> c is Ready
            } else {
                r matches Ok(Command::Other)
            }
        }),
{
    let b = bytes_of(body);
    law_commands_are_told_by_their_first_bytes(b);
    if b.len() > 0 && b.len() >= 1 + b[0] {
        if b.len() >= 5 && b.take(5) == seq![0x04u8, 0x50, 0x49, 0x4E, 0x47] {
            law_ping_bytes(b);
            if let Ok(CommandView::Ping { ttl, context }) = command(b) {
                assert(context =~= b.skip(7));
            }
        }
        if b.len() >= 6 && b.take(6) == seq![0x05u8, 0x45, 0x52, 0x52, 0x4F, 0x52] {
            law_error_bytes(b);
        }
    }
}

/// A READY is read property by property: the name and the value of its first property, each as
/// it stands behind its length, and then what a READY with only the others holds.
pub proof fn law_parse_ready(body: Bytes, r: Result<Command>, others: Bytes, rest: Result<Command>)
    requires
        call_ensures(parse_command, (&body,), r),
        call_ensures(parse_command, (&others,), rest),
        bytes_of(body).len() >= 6,
        bytes_of(body).take(6) == seq![0x05u8, 0x52, 0x45, 0x41, 0x44, 0x59],
    ensures
        ({
            let b = bytes_of(body);
            let k = b[6] as int;
            let n = b[7 + k] * 0x100_0000 + b[8 + k] * 0x1_0000 + b[9 + k] * 0x100 + b[10 + k];
            if b.len() == 6 {
                r matches Ok(Command::Ready(meta)) && meta@.len() == 0
            } else if b.len() < 7 + k {
                r matches Err(Error::Protocol(m)) && m@ == "truncated metadata name"@
            } else if b.len() < 11 + k || b.len() < 11 + k + n {
                r matches Err(Error::Protocol(m)) && m@ == "truncated metadata value"@
            } else {
                bytes_of(others) == b.take(6) + b.skip(11 + k + n) ==> match rest {
                    Ok(Command::Ready(behind)) => {
                        &&& r matches Ok(Command::Ready(meta)) && {
                            &&& meta@.len() == 1 + behind@.len()
                            &&& meta@[0].0@ == text_of(b.subrange(7, 7 + k))
                            &&& bytes_of(meta@[0].1) == b.subrange(11 + k, 11 + k + n)
                            &&& forall|i: int|
                                0 <= i < behind@.len() ==> (#[trigger] behind@[i]).0@ == meta@[1
                                    + i].0@ && bytes_of(behind@[i].1) == bytes_of(meta@[1 + i].1)
                        }
                    },
                    Ok(_) => false,
                    Err(e) => e matches Error::Protocol(m) && (r matches Err(Error::Protocol(w))
                        && w@ == m@),
                }
            }
        }),
{
    let b = bytes_of(body);
    law_ready_is_read_property_by_property(b);
    if b.len() == 6 {
        if let Ok(Command::Ready(meta)) = r {
            assert(meta_view(meta@).len() == 0);
        }
    } else {
        let k = b[6] as int;
        let n = b[7 + k] * 0x100_0000 + b[8 + k] * 0x1_0000 + b[9 + k] * 0x100 + b[10 + k];
        if b.len() >= 11 + k && b.len() >= 11 + k + n && bytes_of(others) == b.take(6) + b.skip(
            11 + k + n,
        ) {
            if let Ok(Command::Ready(behind)) = rest {
                if let Ok(Command::Ready(meta)) = r {
                    let all = meta_view(meta@);
                    let last = meta_view(behind@);
                    assert(all.len() == 1 + last.len());
                    assert(all[0] == (meta@[0].0@, bytes_of(meta@[0].1)));
                    assert forall|i: int| 0 <= i < behind@.len() implies (#[trigger] behind@[i]).0@
                        == meta@[1 + i].0@ && bytes_of(behind@[i].1) == bytes_of(
                        meta@[1 + i].1,
                    ) by {
                        assert(last[i] == all[1 + i]);
                    }
                }
            }
        }
    }
}

/// READY announces our socket type and, where there is one, our identity, each as it stands
/// behind its name and its length. The body ends with exactly the identity's bytes.
pub proof fn law_ready_command(socket_type: &str, identity: Option<&[u8]>, r: Bytes)
    requires
        call_ensures(ready_command, (socket_type, identity), r),
        encode_utf8(socket_type@).len() <= u64::MAX,
        identity matches Some(id) ==> id@.len() <= u64::MAX,
    ensures
        ({
            let b = bytes_of(r);
            let v = encode_utf8(socket_type@);
            let n = v.len();
            let end = 22 + n as int;
            &&& b.take(6) == seq![0x05u8, 0x52, 0x45, 0x41, 0x44, 0x59]
            &&& b.subrange(6, 18) == seq![
                0x0Bu8,
                0x53,
                0x6F,
                0x63,
                0x6B,
                0x65,
                0x74,
                0x2D,
                0x54,
                0x79,
                0x70,
                0x65,
            ]
            &&& b[18] == n / 0x100_0000 % 0x100
            &&& b[19] == n / 0x1_0000 % 0x100
            &&& b[20] == n / 0x100 % 0x100
            &&& b[21] == n % 0x100
            &&& b.subrange(22, end) == v
            &&& match identity {
                None => b.len() == end,
                Some(id) => {
                    &&& b.subrange(end, end + 9) == seq![
                        0x08u8,
                        0x49,
                        0x64,
                        0x65,
                        0x6E,
                        0x74,
                        0x69,
                        0x74,
                        0x79,
                    ]
                    &&& b[end + 9] == id@.len() / 0x100_0000 % 0x100
                    &&& b[end + 10] == id@.len() / 0x1_0000 % 0x100
                    &&& b[end + 11] == id@.len() / 0x100 % 0x100
                    &&& b[end + 12] == id@.len() % 0x100
                    &&& b.skip(end + 13) == id@
                },
            }
        }),
{
    let shown = match identity {
        Some(id) => Some(id@),
        None => None,
    };
    law_ready_bytes(socket_type@, shown);
}

/// SUBSCRIBE is 09, its name, and the topic as it stands.
pub proof fn law_subscribe_command(topic: &[u8], r: Bytes)
    requires
        call_ensures(subscribe_command, (topic,), r),
    ensures
        bytes_of(r).len() == 10 + topic@.len(),
        bytes_of(r).take(10) == seq![
            0x09u8,
            0x53,
            0x55,
            0x42,
            0x53,
            0x43,
            0x52,
            0x49,
            0x42,
            0x45,
        ],
        bytes_of(r).skip(10) == topic@,
{
    law_subscription_bytes(topic@);
}

/// PONG is 04, its name, and the context as it stands.
pub proof fn law_pong_command(context: &[u8], r: Bytes)
    requires
        call_ensures(pong_command, (context,), r),
    ensures
        bytes_of(r).len() == 5 + context@.len(),
        bytes_of(r).take(5) == seq![0x04u8, 0x50, 0x4F, 0x4E, 0x47],
        bytes_of(r).skip(5) == context@,
{
    law_pong_bytes(context@);
}

/// A peer that drops the first five bytes of the answer to its PING holds what followed the time
/// to live in that PING.
pub proof fn law_pong_echoes_ping(ping: Bytes, parsed: Result<Command>, context: &[u8], answer: Bytes)
    requires
        call_ensures(parse_command, (&ping,), parsed),
        call_ensures(pong_command, (context,), answer),
        parsed matches Ok(Command::Ping { context: c, .. }) && bytes_of(c) == context@,
    ensures
        bytes_of(answer).skip(5) == bytes_of(ping).skip(7),
{
    law_parse_command(ping, parsed);
    law_pong_command(context, answer);
}

/// The peers of a DEALER are a ROUTER, a DEALER and a REP, those of a SUB a PUB and an XPUB, and
/// no other type of ours has any. A peer that is refused is told both types.
pub proof fn law_compatible(ours: &str, theirs: &str, r: bool, checked: Result<()>)
    requires
        call_ensures(compatible, (ours, theirs), r),
        call_ensures(check_peer_type, (ours, theirs), checked),
    ensures
        ours@ == "DEALER"@ ==> r == (theirs@ == "ROUTER"@ || theirs@ == "DEALER"@ || theirs@
            == "REP"@),
        ours@ == "SUB"@ ==> r == (theirs@ == "PUB"@ || theirs@ == "XPUB"@),
        ours@ != "DEALER"@ && ours@ != "SUB"@ ==> !r,
        checked is Ok <==> r,
        checked matches Err(e) ==> (e matches Error::Protocol(m) && m@ == "peer socket type "@
            + theirs@ + " is incompatible with "@ + ours@),
{
    law_who_may_connect(ours@, theirs@);
}

/// Numbers are read most significant byte first, and written in decimal digits that stand for
/// them, without leading zeros.
pub proof fn law_numbers(bytes: &[u8], n: u64, m: u64, s: String)
    requires
        call_ensures(read_u64, (bytes,), n),
        bytes@.len() == 8,
        call_ensures(decimal_string, (m,), s),
    ensures
        n == bytes@[0] * 0x100_0000_0000_0000 + bytes@[1] * 0x1_0000_0000_0000 + bytes@[2]
            * 0x100_0000_0000 + bytes@[3] * 0x1_0000_0000 + bytes@[4] * 0x100_0000 + bytes@[5]
            * 0x1_0000 + bytes@[6] * 0x100 + bytes@[7],
        reading(s@) == m,
        s@.len() > 0,
        s@[0] == '0' ==> m == 0 && s@.len() == 1,
        forall|i: int| 0 <= i < s@.len() ==> '0' <= #[trigger] s@[i] <= '9',
{
    law_numbers_are_read_big_endian(bytes@);
    law_numerals_read_back(m as nat);
}

/// Two slices, and two strings, are equal exactly where they agree at every index.
pub proof fn law_equality(a: &[u8], b: &[u8], r: bool, s: &str, t: &str, q: bool)
    requires
        call_ensures(bytes_eq, (a, b), r),
        call_ensures(str_eq, (s, t), q),
    ensures
        r <==> a@.len() == b@.len() && forall|i: int| 0 <= i < a@.len() ==> #[trigger] a@[i] == b@[i],
        q <==> s@.len() == t@.len() && forall|i: int| 0 <= i < s@.len() ==> #[trigger] s@[i] == t@[i],
{
    if a@.len() == b@.len() && forall|i: int| 0 <= i < a@.len() ==> #[trigger] a@[i] == b@[i] {
        assert(a@ =~= b@);
    }
    if s@.len() == t@.len() && forall|i: int| 0 <= i < s@.len() ==> #[trigger] s@[i] == t@[i] {
        assert(s@ =~= t@);
    }
}

/// A protocol error carries the words that it was made with, and shows them behind
/// `protocol error: `.
pub proof fn law_protocol_errors_keep_their_words<T>(msg: String, r: Result<T>, shown: String)
    requires
        call_ensures(perr::<T>, (msg,), r),
        r matches Err(e) ==> call_ensures(Error::to_string, (&e,), shown),
    ensures
        r matches Err(Error::Protocol(m)) && m@ == msg@,
        shown@ == "protocol error: "@ + msg@,
{
}

/// An I/O failure is kept as it is, and shows the operating system's words behind `io error: `.
pub proof fn law_io_failures_are_kept(e: std::io::Error, r: Error, words: &str, line: String)
    requires
        call_ensures(<Error as From<std::io::Error>>::from, (e,), r),
        call_ensures(io_failure, (words,), line),
    ensures
        r == Error::Io(e),
        line@ == "io error: "@ + words@,
{
}

/// The refusals that pass on words from outside hold these words.
pub proof fn law_refusals_pass_words_on<T>(
    words: &str,
    mechanism: Result<T>,
    error: Result<T>,
    handshake: Result<T>,
)
    requires
        call_ensures(unsupported_mechanism::<T>, (words,), mechanism),
        call_ensures(peer_error::<T>, (words,), error),
        call_ensures(handshake_rejected::<T>, (words,), handshake),
    ensures
        mechanism matches Err(Error::Protocol(m)) && m@ == "peer requires security mechanism "@
            + words@ + "; only NULL is supported"@,
        error matches Err(Error::Protocol(m)) && m@ == "peer error: "@ + words@,
        handshake matches Err(Error::Protocol(m)) && m@ == "peer rejected handshake: "@ + words@,
{
}

} // verus!
