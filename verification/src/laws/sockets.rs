//! Laws of the operations of the sockets: what a call gives back and what it leaves, stated on the
//! bytes that were received and that are queued. `call_ensures(f, args, r)` says that `r` may come
//! back of calling `f` on `args`.

use bytes::Bytes;
use vstd::prelude::*;
use vstd::utf8::*;

use crate::buffer::bytes_of;
use crate::error::{Error, Result};
use crate::laws::bytes_on_the_wire::law_subscription_bytes;
use crate::laws::conversation::{law_message_round_trip, within_cap};
use crate::socket::{
    announced_type, check_meta, multipart, parts_view, receive, shake, slices_view,
    Dealer, Handshake, HandshakeState, HandshakeStep, Handshaking, Progress, Step, StreamState,
    Sub, ZmtpStream, DEFAULT_MAX_FRAME,
};
use crate::text::{same_but_case, text_of};
use crate::wire::{
    command, decoded, encoded, greeting, greeting_check, lemma_encoded_len, may_connect, meta_view,
    opt_bytes, pong, ready, subscription, CommandView, Decoded, Property,
};

verus! {

/// Whether a call failed with a protocol error in these words.
pub open spec fn failed_with<T>(r: Result<T>, words: Seq<char>) -> bool {
    r matches Err(Error::Protocol(m)) && m@ == words
}

/// What is pending is what is queued. Writing takes exactly the bytes written off its front, and
/// nothing else changes.
pub proof fn law_pending_and_sent(s: &mut ZmtpStream, n: usize, before: &[u8])
    requires
        call_ensures(ZmtpStream::pending, (&*old(s),), before),
        call_ensures(ZmtpStream::sent, (s, n), ()),
        n <= before@.len(),
    ensures
        before@ == old(s)@.outbound,
        final(s)@.outbound == before@.skip(n as int),
        final(s)@.inbound == old(s)@.inbound,
        final(s)@.parts == old(s)@.parts,
        final(s)@.max_frame == old(s)@.max_frame,
        final(s)@.peer_meta == old(s)@.peer_meta,
{
}

/// What is received is put behind what was received before, and nothing else changes. No bytes at
/// all mean that the peer closed the connection.
pub proof fn law_received(s: &mut ZmtpStream, data: &[u8], r: Result<()>, room: usize)
    requires
        call_ensures(ZmtpStream::room, (&*old(s),), room),
        call_ensures(ZmtpStream::received, (s, data), r),
    ensures
        room + old(s)@.inbound.len() == isize::MAX,
        final(s)@.inbound == old(s)@.inbound + data@,
        final(s)@.outbound == old(s)@.outbound,
        final(s)@.parts == old(s)@.parts,
        final(s)@.max_frame == old(s)@.max_frame,
        final(s)@.peer_meta == old(s)@.peer_meta,
        data@.len() > 0 ==> r is Ok,
        data@.len() == 0 ==> failed_with(r, "connection closed by peer"@),
{
}

/// The metadata of a connection is shown as it is held, on every kind of socket.
pub proof fn law_peer_meta(
    s: ZmtpStream,
    meta: &[(String, Bytes)],
    d: Dealer,
    of_d: &[(String, Bytes)],
    b: Sub,
    of_b: &[(String, Bytes)],
    i: int,
)
    requires
        call_ensures(ZmtpStream::peer_meta, (&s,), meta),
        call_ensures(Dealer::peer_meta, (&d,), of_d),
        call_ensures(Sub::peer_meta, (&b,), of_b),
    ensures
        meta@.len() == s@.peer_meta.len(),
        of_d@.len() == d.0@.peer_meta.len(),
        of_b@.len() == b.0@.peer_meta.len(),
        0 <= i < meta@.len() ==> meta@[i].0@ == s@.peer_meta[i].0 && bytes_of(meta@[i].1)
            == s@.peer_meta[i].1,
        0 <= i < of_d@.len() ==> of_d@[i].0@ == d.0@.peer_meta[i].0 && bytes_of(of_d@[i].1)
            == d.0@.peer_meta[i].1,
        0 <= i < of_b@.len() ==> of_b@[i].0@ == b.0@.peer_meta[i].0 && bytes_of(of_b@[i].1)
            == b.0@.peer_meta[i].1,
{
    assert(meta_view(meta@).len() == meta@.len());
    assert(meta_view(of_d@).len() == of_d@.len());
    assert(meta_view(of_b@).len() == of_b@.len());
    if 0 <= i < meta@.len() {
        assert(meta_view(meta@)[i] == (meta@[i].0@, bytes_of(meta@[i].1)));
    }
    if 0 <= i < of_d@.len() {
        assert(meta_view(of_d@)[i] == (of_d@[i].0@, bytes_of(of_d@[i].1)));
    }
    if 0 <= i < of_b@.len() {
        assert(meta_view(of_b@)[i] == (of_b@[i].0@, bytes_of(of_b@[i].1)));
    }
}

/// Sending queues the parts of a message in the order in which they were given, behind what was
/// queued before, and changes nothing else.
pub proof fn law_send(
    s: &mut ZmtpStream,
    d: &mut Dealer,
    parts: &[&[u8]],
    message: Seq<Seq<u8>>,
)
    requires
        call_ensures(ZmtpStream::send_multipart, (s, parts), ()),
        call_ensures(Dealer::send, (d, parts), ()),
        message.len() == parts@.len(),
        forall|i: int| 0 <= i < message.len() ==> #[trigger] message[i] == parts@[i]@,
    ensures
        final(s)@ == (StreamState {
            outbound: old(s)@.outbound + multipart(message),
            ..old(s)@
        }),
        final(d).0@ == (StreamState {
            outbound: old(d).0@.outbound + multipart(message),
            ..old(d).0@
        }),
{
    assert(slices_view(parts@) =~= message);
}

/// Subscribing queues one command frame: 09, `SUBSCRIBE`, and the topic as it stands. Any other
/// command is queued with its body as it stands.
pub proof fn law_subscribe(
    b: &mut Sub,
    topic: &[u8],
    body: Seq<u8>,
    s: &mut ZmtpStream,
    other: Bytes,
)
    requires
        call_ensures(Sub::subscribe, (b, topic), ()),
        call_ensures(ZmtpStream::send_command, (s, &other), ()),
        body == seq![0x09u8, 0x53, 0x55, 0x42, 0x53, 0x43, 0x52, 0x49, 0x42, 0x45] + topic@,
    ensures
        final(b).0@ == (StreamState {
            outbound: old(b).0@.outbound + encoded(body, false, true),
            ..old(b).0@
        }),
        final(s)@ == (StreamState {
            outbound: old(s)@.outbound + encoded(bytes_of(other), false, true),
            ..old(s)@
        }),
{
    law_subscription_bytes(topic@);
    let told = subscription(topic@);
    assert(told =~= told.take(10) + told.skip(10));
}

/// One call for a message, by what is queued and what stands at the front of the bytes received:
/// queued bytes are written first; a frame that has not come is awaited; a last part completes the
/// message, whose parts come out in the order in which they came; a PING is answered with its own
/// context; and an ERROR or a faulty frame fails the call.
pub proof fn law_recv(s: &mut ZmtpStream, r: Result<Step<Vec<Bytes>>>)
    requires
        call_ensures(ZmtpStream::recv_multipart, (s,), r),
    ensures
        ({
            let was = old(s)@;
            let is = final(s)@;
            if was.outbound.len() > 0 {
                r matches Ok(Step::Write) && is == was
            } else {
                match decoded(was.inbound, was.max_frame) {
                    Decoded::Incomplete => r matches Ok(Step::Read) && is == was,
                    Decoded::Refused(msg) => failed_with(r, msg) && is == was,
                    Decoded::Complete(frame, rest) => {
                        &&& !frame.command && !frame.more ==> {
                            &&& r matches Ok(Step::Done(m)) && {
                                &&& m@.len() == was.parts.len() + 1
                                &&& bytes_of(m@[m@.len() - 1]) == frame.body
                                &&& forall|i: int|
                                    0 <= i < was.parts.len() ==> #[trigger] was.parts[i]
                                        == bytes_of(m@[i])
                            }
                            &&& is == (StreamState { inbound: rest, parts: Seq::empty(), ..was })
                        }
                        &&& frame.command ==> match command(frame.body) {
                            Err(msg) => {
                                &&& failed_with(r, msg)
                                &&& is == (StreamState { inbound: rest, ..was })
                            },
                            Ok(CommandView::Error(reason)) => {
                                &&& failed_with(r, "peer error: "@ + reason)
                                &&& is == (StreamState { inbound: rest, ..was })
                            },
                            Ok(CommandView::Ping { context, .. }) => {
                                &&& r matches Ok(Step::Write)
                                &&& is == (StreamState {
                                    inbound: rest,
                                    outbound: encoded(pong(context), false, true),
                                    ..was
                                })
                            },
                            Ok(_) => true,
                        }
                    },
                }
            }
        }),
{
    let was = old(s)@;
    if was.outbound.len() == 0 {
        if let Decoded::Complete(frame, rest) = decoded(was.inbound, was.max_frame) {
            if !frame.command && !frame.more {
                if let Ok(Step::Done(m)) = r {
                    let got = parts_view(m@);
                    assert(got == was.parts.push(frame.body));
                    assert(got.len() == m@.len());
                    assert(got[m@.len() - 1] == bytes_of(m@[m@.len() - 1]));
                    assert forall|i: int| 0 <= i < was.parts.len() implies #[trigger] was.parts[i]
                        == bytes_of(m@[i]) by {
                        assert(got[i] == bytes_of(m@[i]));
                    }
                }
            }
            if frame.command {
                if let Ok(CommandView::Ping { context, .. }) = command(frame.body) {
                    let reply = encoded(pong(context), false, true);
                    lemma_encoded_len(pong(context), false, true);
                    let answered = StreamState { inbound: rest, outbound: reply, ..was };
                    assert(receive(answered) == (answered, Progress::Write));
                }
            }
        }
    }
}

/// Whether two calls for a message came to the same.
pub open spec fn same_outcome(r: Result<Step<Vec<Bytes>>>, q: Result<Step<Vec<Bytes>>>) -> bool {
    match (r, q) {
        (Ok(Step::Write), Ok(Step::Write)) => true,
        (Ok(Step::Read), Ok(Step::Read)) => true,
        (Ok(Step::Done(a)), Ok(Step::Done(b))) => a@.len() == b@.len() && forall|i: int|
            0 <= i < a@.len() ==> bytes_of(#[trigger] a@[i]) == bytes_of(b@[i]),
        (Err(Error::Protocol(a)), Err(Error::Protocol(b))) => a@ == b@,
        _ => false,
    }
}

/// Two messages with the same view are the same, part by part.
proof fn lemma_same_parts(a: Seq<Bytes>, b: Seq<Bytes>)
    requires
        parts_view(a) == parts_view(b),
    ensures
        a.len() == b.len(),
        forall|i: int| 0 <= i < a.len() ==> bytes_of(#[trigger] a[i]) == bytes_of(b[i]),
{
    assert(parts_view(a).len() == a.len());
    assert(parts_view(b).len() == b.len());
    assert forall|i: int| 0 <= i < a.len() implies bytes_of(#[trigger] a[i]) == bytes_of(b[i]) by {
        assert(parts_view(a)[i] == bytes_of(a[i]));
        assert(parts_view(b)[i] == bytes_of(b[i]));
    }
}

/// A part with more to follow is kept behind the parts before it, and a command that is neither a
/// PING nor an ERROR is skipped: the call comes to what it would come to on a connection that has
/// that part, or never got that command.
pub proof fn law_recv_goes_on(
    s: &mut ZmtpStream,
    r: Result<Step<Vec<Bytes>>>,
    t: &mut ZmtpStream,
    q: Result<Step<Vec<Bytes>>>,
)
    requires
        call_ensures(ZmtpStream::recv_multipart, (s,), r),
        call_ensures(ZmtpStream::recv_multipart, (t,), q),
        old(s)@.outbound.len() == 0,
        decoded(old(s)@.inbound, old(s)@.max_frame) matches Decoded::Complete(frame, rest) && {
            if frame.command {
                &&& command(frame.body) matches Ok(c) && (c is Ready || c is Other)
                &&& old(t)@ == (StreamState { inbound: rest, ..old(s)@ })
            } else {
                &&& frame.more
                &&& old(t)@ == (StreamState {
                    inbound: rest,
                    parts: old(s)@.parts.push(frame.body),
                    ..old(s)@
                })
            }
        },
    ensures
        same_outcome(r, q),
        final(s)@ == final(t)@,
{
    assert(receive(old(s)@) == receive(old(t)@));
    if let Progress::Done(_) = receive(old(s)@).1 {
        lemma_same_parts(r->Ok_0->Done_0@, q->Ok_0->Done_0@);
    }
}

/// A DEALER and a SUB receive as any connection in the same state does.
pub proof fn law_every_socket_receives_alike(
    s: &mut ZmtpStream,
    r: Result<Step<Vec<Bytes>>>,
    d: &mut Dealer,
    of_d: Result<Step<Vec<Bytes>>>,
    b: &mut Sub,
    of_b: Result<Step<Vec<Bytes>>>,
)
    requires
        call_ensures(ZmtpStream::recv_multipart, (s,), r),
        call_ensures(Dealer::recv, (d,), of_d),
        call_ensures(Sub::recv, (b,), of_b),
        old(d).0@ == old(s)@,
        old(b).0@ == old(s)@,
    ensures
        same_outcome(r, of_d),
        same_outcome(r, of_b),
        final(d).0@ == final(s)@,
        final(b).0@ == final(s)@,
{
    if let Progress::Done(_) = receive(old(s)@).1 {
        lemma_same_parts(r->Ok_0->Done_0@, of_d->Ok_0->Done_0@);
        lemma_same_parts(r->Ok_0->Done_0@, of_b->Ok_0->Done_0@);
    }
}

/// A message that one side sends comes out of the other side's call as it was given: the same
/// parts, in the same order, byte for byte.
pub proof fn law_what_is_sent_is_received(
    s: &mut ZmtpStream,
    parts: &[&[u8]],
    t: &mut ZmtpStream,
    r: Result<Step<Vec<Bytes>>>,
    tail: Seq<u8>,
)
    requires
        call_ensures(ZmtpStream::send_multipart, (s, parts), ()),
        call_ensures(ZmtpStream::recv_multipart, (t,), r),
        old(s)@.outbound.len() == 0,
        old(t)@.inbound == final(s)@.outbound + tail,
        old(t)@.outbound.len() == 0,
        old(t)@.parts.len() == 0,
        parts@.len() > 0,
        forall|i: int|
            0 <= i < parts@.len() ==> (#[trigger] parts@[i])@.len() <= old(t)@.max_frame
                && parts@[i]@.len() <= u64::MAX,
    ensures
        r matches Ok(Step::Done(m)) && m@.len() == parts@.len() && forall|i: int|
            0 <= i < parts@.len() ==> (#[trigger] parts@[i])@ == bytes_of(m@[i]),
        final(t)@ == (StreamState { inbound: tail, ..old(t)@ }),
{
    let message = slices_view(parts@);
    assert(final(s)@.outbound =~= multipart(message));
    assert forall|i: int| 0 <= i < message.len() implies (#[trigger] message[i]).len() <= old(
        t,
    )@.max_frame && message[i].len() <= u64::MAX by {
        assert(message[i] == parts@[i]@);
    }
    assert(within_cap(message, old(t)@.max_frame));
    law_message_round_trip(old(t)@, message, tail);
    let m = r->Ok_0->Done_0@;
    assert(parts_view(m).len() == message.len());
    assert forall|i: int| 0 <= i < parts@.len() implies (#[trigger] parts@[i])@ == bytes_of(
        m[i],
    ) by {
        assert(parts_view(m)[i] == message[i]);
    }
}

/// A handshake starts with our greeting queued, our READY to follow with our socket type and our
/// identity, nothing received, and the cap that it was given.
pub proof fn law_handshake_starts(
    socket_type: &str,
    identity: Option<&[u8]>,
    max_frame: usize,
    h: Handshake,
    shown: Option<Seq<u8>>,
)
    requires
        call_ensures(ZmtpStream::handshake, (socket_type, identity, max_frame), h),
        match (identity, shown) {
            (None, None) => true,
            (Some(id), Some(bytes)) => bytes == id@,
            _ => false,
        },
    ensures
        h@.socket_type == socket_type@,
        !h@.greeted,
        h@.ready == encoded(ready(socket_type@, shown), false, true),
        h@.stream.outbound == greeting(),
        h@.stream.inbound.len() == 0,
        h@.stream.parts.len() == 0,
        h@.stream.peer_meta.len() == 0,
        h@.stream.max_frame == max_frame,
{
    assert(opt_bytes(identity) == shown);
}

/// A DEALER and a SUB start as a handshake of that type does, with a cap of 64 MiB. A DEALER
/// carries the identity that it was given, a SUB none.
pub proof fn law_sockets_start(
    of_dealer: &str,
    of_sub: &str,
    identity: Option<&[u8]>,
    cap: usize,
    d: Handshake,
    as_d: Handshake,
    b: Handshake,
    as_b: Handshake,
)
    requires
        of_dealer@ == "DEALER"@,
        of_sub@ == "SUB"@,
        cap == 0x400_0000,
        call_ensures(Dealer::from_stream, (identity,), d),
        call_ensures(ZmtpStream::handshake, (of_dealer, identity, cap), as_d),
        call_ensures(Sub::from_stream, (), b),
        call_ensures(ZmtpStream::handshake, (of_sub, None, cap), as_b),
    ensures
        d@ == as_d@,
        b@ == as_b@,
        DEFAULT_MAX_FRAME == cap,
{
}

/// In a handshake too, what is pending is what is queued, and writing takes exactly the bytes
/// written off its front.
pub proof fn law_handshake_pending_and_sent(h: &mut Handshake, n: usize, before: &[u8])
    requires
        call_ensures(Handshake::pending, (&*old(h),), before),
        call_ensures(Handshake::sent, (h, n), ()),
        n <= before@.len(),
    ensures
        before@ == old(h)@.stream.outbound,
        final(h)@ == (HandshakeState {
            stream: StreamState { outbound: before@.skip(n as int), ..old(h)@.stream },
            ..old(h)@
        }),
{
}

/// In a handshake too, what is received is put behind what was received before. A stream that
/// ends within the peer's greeting is an I/O failure, and one that ends later was closed.
pub proof fn law_handshake_received(h: &mut Handshake, data: &[u8], r: Result<()>, room: usize)
    requires
        call_ensures(Handshake::room, (&*old(h),), room),
        call_ensures(Handshake::received, (h, data), r),
    ensures
        room + old(h)@.stream.inbound.len() == isize::MAX,
        final(h)@ == (HandshakeState {
            stream: StreamState {
                inbound: old(h)@.stream.inbound + data@,
                ..old(h)@.stream
            },
            ..old(h)@
        }),
        data@.len() > 0 ==> r is Ok,
        data@.len() == 0 ==> if !old(h)@.greeted && old(h)@.stream.inbound.len() < 64 {
            r matches Err(Error::Io(_))
        } else {
            failed_with(r, "connection closed by peer"@)
        },
{
}

/// Before the peer has greeted: what is queued is written first, 64 bytes are awaited, a greeting
/// that is refused fails the handshake, and an accepted one is answered with our READY.
pub proof fn law_step_greets(h: Handshake, r: Result<HandshakeStep>)
    requires
        call_ensures(Handshake::step, (h,), r),
        h@.stream.outbound.len() > 0 || !h@.greeted,
    ensures
        ({
            let s = h@.stream;
            if s.outbound.len() > 0 {
                r matches Ok(HandshakeStep::Write(next)) && next@ == h@
            } else if s.inbound.len() < 64 {
                r matches Ok(HandshakeStep::Read(next)) && next@ == h@
            } else {
                match greeting_check(s.inbound.take(64)) {
                    Err(msg) => failed_with(r, msg),
                    Ok(_) => h@.ready.len() > 0 ==> (r matches Ok(HandshakeStep::Write(next))
                        && next@ == (HandshakeState {
                        socket_type: h@.socket_type,
                        greeted: true,
                        ready: Seq::empty(),
                        stream: StreamState {
                            inbound: s.inbound.skip(64),
                            outbound: h@.ready,
                            ..s
                        },
                    })),
                }
            }
        }),
{
    let s = h@.stream;
    if s.outbound.len() == 0 && s.inbound.len() >= 64 && h@.ready.len() > 0 {
        let told = HandshakeState {
            socket_type: h@.socket_type,
            greeted: true,
            ready: Seq::empty(),
            stream: StreamState { inbound: s.inbound.skip(64), outbound: h@.ready, ..s },
        };
        assert(shake(told) == Handshaking::Write(told));
    }
}

/// Once the peer has greeted: a frame that has not come is awaited; a part of a message, a faulty
/// frame and an ERROR fail the handshake; a PING is answered with its own context; and READY ends
/// it. `i` is where the first property called `Socket-Type`, in any case, stands in that READY.
/// The peer is let in where there is none, or where its value is a type that may connect to ours.
pub proof fn law_step_reads(h: Handshake, r: Result<HandshakeStep>, i: int)
    requires
        call_ensures(Handshake::step, (h,), r),
        h@.stream.outbound.len() == 0,
        h@.greeted,
    ensures
        ({
            let s = h@.stream;
            let ours = h@.socket_type;
            match decoded(s.inbound, s.max_frame) {
                Decoded::Incomplete => r matches Ok(HandshakeStep::Read(next)) && next@ == h@,
                Decoded::Refused(msg) => failed_with(r, msg),
                Decoded::Complete(frame, rest) => if !frame.command {
                    failed_with(r, "message frame before handshake completed"@)
                } else {
                    match command(frame.body) {
                        Err(msg) => failed_with(r, msg),
                        Ok(CommandView::Error(reason)) => failed_with(
                            r,
                            "peer rejected handshake: "@ + reason,
                        ),
                        Ok(CommandView::Ping { context, .. }) => {
                            r matches Ok(HandshakeStep::Write(next)) && next@ == (HandshakeState {
                                stream: StreamState {
                                    inbound: rest,
                                    outbound: encoded(pong(context), false, true),
                                    ..s
                                },
                                ..h@
                            })
                        },
                        Ok(CommandView::Ready(meta)) => {
                            &&& is_first_type(meta, i) ==> {
                                let valid = i == meta.len() || (valid_utf8(meta[i].1)
                                    && may_connect(ours, text_of(meta[i].1)));
                                &&& valid ==> (r matches Ok(HandshakeStep::Done(open)) && open@ == (
                                StreamState { inbound: rest, peer_meta: meta, ..s }))
                                &&& !valid ==> failed_with(
                                    r,
                                    "peer socket type "@ + text_of(meta[i].1)
                                        + " is incompatible with "@ + ours,
                                )
                            }
                        },
                        Ok(CommandView::Other) => true,
                    }
                },
            }
        }),
{
    let s = h@.stream;
    if let Decoded::Complete(frame, rest) = decoded(s.inbound, s.max_frame) {
        if frame.command {
            match command(frame.body) {
                Ok(CommandView::Ping { context, .. }) => {
                    let reply = encoded(pong(context), false, true);
                    lemma_encoded_len(pong(context), false, true);
                    let told = HandshakeState {
                        stream: StreamState { inbound: rest, outbound: reply, ..s },
                        ..h@
                    };
                    assert(shake(told) == Handshaking::Write(told));
                },
                Ok(CommandView::Ready(meta)) => {
                    if is_first_type(meta, i) {
                        lemma_announced_type(meta, i);
                    }
                },
                _ => {},
            }
        }
    }
}

/// Whether the first property called `Socket-Type`, in any case, stands at `i`, or none does and
/// `i` is the end.
pub open spec fn is_first_type(meta: Seq<Property>, i: int) -> bool {
    &&& 0 <= i <= meta.len()
    &&& forall|j: int| 0 <= j < i ==> !same_but_case((#[trigger] meta[j]).0, "socket-type"@)
    &&& i < meta.len() ==> same_but_case(meta[i].0, "socket-type"@)
}

/// The announced type is the value of the first property of that name.
proof fn lemma_announced_type(meta: Seq<Property>, i: int)
    requires
        is_first_type(meta, i),
    ensures
        announced_type(meta) == if i < meta.len() {
            Some(meta[i].1)
        } else {
            None
        },
    decreases i,
{
    if i > 0 {
        let rest = meta.skip(1);
        assert(!same_but_case(meta[0].0, "socket-type"@));
        assert forall|j: int| 0 <= j < i - 1 implies !same_but_case(
            (#[trigger] rest[j]).0,
            "socket-type"@,
        ) by {
            assert(rest[j] == meta[j + 1]);
        }
        lemma_announced_type(rest, i - 1);
    }
}

/// An unknown command is skipped: the step comes to what it would come to in a handshake that
/// never got it.
pub proof fn law_step_skips(
    h: Handshake,
    r: Result<HandshakeStep>,
    g: Handshake,
    q: Result<HandshakeStep>,
)
    requires
        call_ensures(Handshake::step, (h,), r),
        call_ensures(Handshake::step, (g,), q),
        h@.stream.outbound.len() == 0,
        h@.greeted,
        decoded(h@.stream.inbound, h@.stream.max_frame) matches Decoded::Complete(frame, rest) && {
            &&& frame.command
            &&& command(frame.body) matches Ok(CommandView::Other)
            &&& g@ == (HandshakeState {
                stream: StreamState { inbound: rest, ..h@.stream },
                ..h@
            })
        },
    ensures
        match (r, q) {
            (Ok(HandshakeStep::Write(a)), Ok(HandshakeStep::Write(b))) => a@ == b@,
            (Ok(HandshakeStep::Read(a)), Ok(HandshakeStep::Read(b))) => a@ == b@,
            (Ok(HandshakeStep::Done(a)), Ok(HandshakeStep::Done(b))) => a@ == b@,
            (Err(Error::Protocol(a)), Err(Error::Protocol(b))) => a@ == b@,
            _ => false,
        },
{
    assert(shake(h@) == shake(g@));
}

/// A peer is let in by its metadata where no property is called `Socket-Type`, in any case, or
/// where the first that is has the name of a type that may connect to ours. `i` is where it
/// stands.
pub proof fn law_check_meta(ours: &str, meta: &[(String, Bytes)], r: Result<()>, i: int)
    requires
        call_ensures(check_meta, (ours, meta), r),
        0 <= i <= meta@.len(),
        forall|j: int|
            0 <= j < i ==> !same_but_case((#[trigger] meta@[j]).0@, "socket-type"@),
        i < meta@.len() ==> same_but_case(meta@[i].0@, "socket-type"@),
    ensures
        i == meta@.len() ==> r is Ok,
        i < meta@.len() ==> {
            let theirs = bytes_of(meta@[i].1);
            &&& r is Ok <==> valid_utf8(theirs) && may_connect(ours@, text_of(theirs))
            &&& r is Err ==> failed_with(
                r,
                "peer socket type "@ + text_of(theirs) + " is incompatible with "@ + ours@,
            )
        },
{
    let all = meta_view(meta@);
    assert(all.len() == meta@.len());
    assert forall|j: int| 0 <= j < i implies !same_but_case(
        (#[trigger] all[j]).0,
        "socket-type"@,
    ) by {
        assert(all[j].0 == meta@[j].0@);
    }
    if i < meta@.len() {
        assert(all[i] == (meta@[i].0@, bytes_of(meta@[i].1)));
    }
    lemma_announced_type(all, i);
}

} // verus!
