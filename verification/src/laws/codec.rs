//! Laws of the codec: what is encoded is decoded, and nothing else is.

use vstd::prelude::*;
use vstd::utf8::*;

use crate::number::{be_bytes, lemma_be_bounds, lemma_be_bytes_len, lemma_be_round_trip};
use crate::text::lemma_text_of_encoded;
use crate::wire::{
    announced_len, command, decoded, encoded, flag_byte, greeting, greeting_check, header_len,
    lemma_command_words, lemma_null_bytes, lemma_property_names, null_mechanism, oversize_refusal,
    pong, properties, property, ready, reserved_set, short_split, subscription, version_refusal,
    CommandView, Decoded, Frame, Parsed, Property, COMMAND, GREETING_LEN, LONG, MORE,
};

verus! {

/// Our own greeting is one that we accept.
pub proof fn law_greeting_accepted()
    ensures
        greeting().len() == GREETING_LEN,
        greeting_check(greeting()) == Parsed::Ok(()),
{
    lemma_null_bytes();
    assert(0x7Fu8 & 1 == 1) by (bit_vector);
    assert(greeting().subrange(12, 32) =~= null_mechanism());
}

/// A greeting like ours is accepted in every version from 3.1 up, and refused below.
pub proof fn law_versions_from_3_1_accepted(major: u8, minor: u8)
    ensures
        greeting_check(greeting().update(10, major).update(11, minor)) == if major > 3 || (major
            == 3 && minor >= 1) {
            Parsed::Ok(())
        } else {
            Parsed::Err(version_refusal(major, minor))
        },
{
    let g = greeting().update(10, major).update(11, minor);
    lemma_null_bytes();
    assert(0x7Fu8 & 1 == 1) by (bit_vector);
    assert(g.subrange(12, 32) =~= null_mechanism());
}

/// The flag byte of a frame says what was put into it.
proof fn lemma_flag_byte(more: bool, command: bool, long: bool)
    ensures
        !reserved_set(flag_byte(more, command, long)),
        (flag_byte(more, command, long) & MORE != 0) == more,
        (flag_byte(more, command, long) & COMMAND != 0) == command,
        (flag_byte(more, command, long) & LONG != 0) == long,
{
    let m: u8 = if more { MORE } else { 0 };
    let c: u8 = if command { COMMAND } else { 0 };
    let l: u8 = if long { LONG } else { 0 };
    let flags = m | c | l;
    assert(flags & !(1u8 | 2 | 4) == 0 && flags & 1 == m && flags & 4 == c && flags & 2 == l)
        by (bit_vector)
        requires
            flags == m | c | l,
            m == 0 || m == 1,
            c == 0 || c == 4,
            l == 0 || l == 2,
    ;
}

/// The header that `encoded` writes announces the body that follows it, whatever of the body and
/// of later bytes is there.
proof fn lemma_header(body: Seq<u8>, more: bool, command: bool, buf: Seq<u8>)
    requires
        body.len() <= u64::MAX,
        buf.len() >= 1,
        buf[0] == flag_byte(more, command, body.len() > 255),
    ensures
        !reserved_set(buf[0]),
        (buf[0] & MORE != 0) == more,
        (buf[0] & COMMAND != 0) == command,
        header_len(buf[0]) == if body.len() > 255 { 9nat } else { 2nat },
        encoded(body, more, command).len() == header_len(buf[0]) + body.len(),
        encoded(body, more, command)[0] == buf[0],
        (buf.len() >= header_len(buf[0]) && buf.take(header_len(buf[0]) as int) == encoded(
            body,
            more,
            command,
        ).take(header_len(buf[0]) as int)) ==> announced_len(buf) == body.len(),
{
    let e = encoded(body, more, command);
    lemma_flag_byte(more, command, body.len() > 255);
    lemma_be_bytes_len(body.len(), 8);
    lemma_be_bounds();
    let hdr = header_len(buf[0]) as int;
    if buf.len() >= hdr && buf.take(hdr) == e.take(hdr) {
        if body.len() > 255 {
            lemma_be_round_trip(body.len(), 8);
            assert(buf.subrange(1, 9) =~= buf.take(9).subrange(1, 9));
            assert(e.take(9).subrange(1, 9) =~= be_bytes(body.len(), 8));
        } else {
            assert(buf[1] == buf.take(2)[1]);
            assert(e.take(2)[1] == body.len() as u8);
        }
    }
}

/// What is encoded as a frame is decoded as that frame, and the bytes after it are left alone.
pub proof fn law_frame_round_trip(
    body: Seq<u8>,
    more: bool,
    command: bool,
    tail: Seq<u8>,
    max_frame: nat,
)
    requires
        body.len() <= max_frame,
        body.len() <= u64::MAX,
    ensures
        decoded(encoded(body, more, command) + tail, max_frame) == Decoded::Complete(
            Frame { command, more, body },
            tail,
        ),
{
    let e = encoded(body, more, command);
    let buf = e + tail;
    lemma_be_bytes_len(body.len(), 8);
    lemma_header(body, more, command, buf);
    let hdr = header_len(buf[0]) as int;
    assert(buf.take(hdr) =~= e.take(hdr));
    assert(buf.subrange(hdr, hdr + body.len()) =~= body);
    assert(buf.skip(hdr + body.len()) =~= tail);
}

/// A frame within the cap does not decode until its last byte has come.
pub proof fn law_partial_frame_waits(
    body: Seq<u8>,
    more: bool,
    command: bool,
    n: nat,
    max_frame: nat,
)
    requires
        body.len() <= max_frame,
        body.len() <= u64::MAX,
        n < encoded(body, more, command).len(),
    ensures
        decoded(encoded(body, more, command).take(n as int), max_frame) is Incomplete,
{
    let e = encoded(body, more, command);
    let buf = e.take(n as int);
    lemma_be_bytes_len(body.len(), 8);
    if n >= 2 {
        lemma_header(body, more, command, buf);
        let hdr = header_len(buf[0]) as int;
        if n >= hdr {
            assert(buf.take(hdr) =~= e.take(hdr));
        }
    }
}

/// A frame over the cap is refused as soon as its header has come, before any of its body.
pub proof fn law_oversize_refused(
    body: Seq<u8>,
    more: bool,
    command: bool,
    n: nat,
    max_frame: nat,
)
    requires
        body.len() > max_frame,
        body.len() <= u64::MAX,
        (if body.len() > 255 { 9nat } else { 2nat }) <= n <= encoded(body, more, command).len(),
    ensures
        decoded(encoded(body, more, command).take(n as int), max_frame) == Decoded::Refused(
            oversize_refusal(body.len(), max_frame),
        ),
{
    let e = encoded(body, more, command);
    let buf = e.take(n as int);
    lemma_be_bytes_len(body.len(), 8);
    lemma_header(body, more, command, buf);
    assert(buf.take(header_len(buf[0]) as int) =~= e.take(header_len(buf[0]) as int));
}

/// Later bytes change nothing of a frame that has come or of a refusal.
pub proof fn law_decoding_is_stable(buf: Seq<u8>, later: Seq<u8>, max_frame: nat)
    ensures
        match decoded(buf, max_frame) {
            Decoded::Incomplete => true,
            Decoded::Refused(msg) => decoded(buf + later, max_frame) == Decoded::Refused(msg),
            Decoded::Complete(frame, rest) => decoded(buf + later, max_frame) == Decoded::Complete(
                frame,
                rest + later,
            ),
        },
{
    let all = buf + later;
    if buf.len() >= 2 {
        assert(all[0] == buf[0]);
        if buf.len() >= 9 {
            assert(all.subrange(1, 9) =~= buf.subrange(1, 9));
        }
        if let Decoded::Complete(frame, rest) = decoded(buf, max_frame) {
            let start = header_len(buf[0]) as int;
            let end = start + announced_len(buf);
            assert(all.subrange(start, end) =~= buf.subrange(start, end));
            assert(all.skip(end) =~= buf.skip(end) + later);
        }
    }
}

/// A short name and what follows it are split where they were joined.
proof fn lemma_short_split(name: Seq<u8>, rest: Seq<u8>)
    requires
        name.len() <= 255,
    ensures
        short_split(seq![name.len() as u8] + name + rest) == Some((name, rest)),
{
    let b = seq![name.len() as u8] + name + rest;
    assert(b[0] == name.len() as u8);
    assert(b.subrange(1, 1 + name.len() as int) =~= name);
    assert(b.skip(1 + name.len() as int) =~= rest);
}

/// A property list that starts with an encoded property reads as that property and the others.
proof fn lemma_property(name: Seq<char>, value: Seq<u8>, rest: Seq<u8>)
    requires
        encode_utf8(name).len() <= 255,
        value.len() <= u32::MAX,
    ensures
        properties(property(name, value) + rest) == match properties(rest) {
            Ok(others) => Parsed::Ok(seq![(name, value)] + others),
            Err(msg) => Parsed::Err(msg),
        },
{
    let n = value.len();
    let len = be_bytes(n, 4);
    lemma_be_bytes_len(n, 4);
    lemma_be_bounds();
    lemma_be_round_trip(n, 4);
    lemma_text_of_encoded(name);
    let b = property(name, value) + rest;
    let after = len + value + rest;
    assert(b =~= seq![encode_utf8(name).len() as u8] + encode_utf8(name) + after);
    lemma_short_split(encode_utf8(name), after);
    assert(after.take(4) =~= len);
    assert(after.subrange(4, 4 + n as int) =~= value);
    assert(after.skip(4 + n as int) =~= rest);
}

/// The metadata that a READY command announces.
pub open spec fn announcement(socket_type: Seq<char>, identity: Option<Seq<u8>>) -> Seq<Property> {
    let announced = seq![("Socket-Type"@, encode_utf8(socket_type))];
    match identity {
        Some(id) => announced.push(("Identity"@, id)),
        None => announced,
    }
}

/// The length of an optional identity.
pub open spec fn identity_len(identity: Option<Seq<u8>>) -> nat {
    match identity {
        Some(id) => id.len(),
        None => 0,
    }
}

/// A READY command tells the peer the socket type and the identity that it was made with.
pub proof fn law_ready_round_trip(socket_type: Seq<char>, identity: Option<Seq<u8>>)
    requires
        encode_utf8(socket_type).len() <= u32::MAX,
        identity_len(identity) <= u32::MAX,
    ensures
        command(ready(socket_type, identity)) == Parsed::Ok(
            CommandView::Ready(announcement(socket_type, identity)),
        ),
{
    lemma_command_words();
    lemma_property_names();
    let none = Seq::<u8>::empty();
    let empty = Seq::<Property>::empty();
    let value = encode_utf8(socket_type);
    assert(properties(none) == Parsed::<Seq<Property>>::Ok(empty));
    match identity {
        Some(id) => {
            let last = property("Identity"@, id);
            let list = property("Socket-Type"@, value) + last;
            lemma_property("Identity"@, id, none);
            assert(last + none =~= last);
            lemma_property("Socket-Type"@, value, last);
            assert(ready(socket_type, identity) =~= seq![5u8] + encode_utf8("READY"@) + list);
            lemma_short_split(encode_utf8("READY"@), list);
            assert(seq![("Socket-Type"@, value)] + (seq![("Identity"@, id)] + empty)
                =~= announcement(socket_type, identity));
        },
        None => {
            let list = property("Socket-Type"@, value);
            lemma_property("Socket-Type"@, value, none);
            assert(list + none =~= list);
            assert(ready(socket_type, identity) =~= seq![5u8] + encode_utf8("READY"@) + list);
            lemma_short_split(encode_utf8("READY"@), list);
            assert(seq![("Socket-Type"@, value)] + empty =~= announcement(socket_type, identity));
        },
    }
}

/// The body of a PING command, as a peer sends it.
pub open spec fn ping(ttl: u16, context: Seq<u8>) -> Seq<u8> {
    seq![4u8] + encode_utf8("PING"@) + be_bytes(ttl as nat, 2) + context
}

/// A PING is read with the time to live and the context that it was sent with.
pub proof fn law_ping_is_read(ttl: u16, context: Seq<u8>)
    ensures
        command(ping(ttl, context)) == Parsed::Ok(CommandView::Ping { ttl, context }),
{
    lemma_command_words();
    lemma_be_bounds();
    lemma_be_bytes_len(ttl as nat, 2);
    lemma_be_round_trip(ttl as nat, 2);
    let rest = be_bytes(ttl as nat, 2) + context;
    assert(ping(ttl, context) =~= seq![4u8] + encode_utf8("PING"@) + rest);
    lemma_short_split(encode_utf8("PING"@), rest);
    assert(encode_utf8("PING"@)[0] != encode_utf8("READY"@)[0]);
    assert(encode_utf8("PING"@)[0] != encode_utf8("ERROR"@)[0]);
    assert(rest.take(2) =~= be_bytes(ttl as nat, 2));
    assert(rest.skip(2) =~= context);
}

/// The commands that we send besides READY ask nothing of a peer of this kind: a PONG and a
/// SUBSCRIBE are read as commands to skip.
pub proof fn law_own_commands_are_skipped(context: Seq<u8>, topic: Seq<u8>)
    ensures
        command(pong(context)) == Parsed::Ok(CommandView::Other),
        command(subscription(topic)) == Parsed::Ok(CommandView::Other),
{
    lemma_command_words();
    lemma_short_split(encode_utf8("PONG"@), context);
    lemma_short_split(encode_utf8("SUBSCRIBE"@), topic);
    assert(encode_utf8("PONG"@)[1] != encode_utf8("PING"@)[1]);
    assert(encode_utf8("PONG"@).len() != encode_utf8("READY"@).len());
    assert(encode_utf8("PONG"@).len() != encode_utf8("ERROR"@).len());
    assert(encode_utf8("SUBSCRIBE"@).len() == 9);
}

} // verus!
