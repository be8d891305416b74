//! Laws of an established connection: messages arrive whole, in order, however the bytes are cut.

use vstd::prelude::*;

use crate::laws::codec::{
    law_decoding_is_stable, law_frame_round_trip, law_ping_is_read, ping,
};
use crate::number::lemma_be_bytes_len;
use crate::socket::{lemma_pong_fits, multipart, receive, Progress, StreamState};
use crate::wire::{command, decoded, encoded, pong, CommandView, Decoded};

verus! {

/// `s` with `later` received after what it holds.
pub open spec fn with_later(s: StreamState, later: Seq<u8>) -> StreamState {
    StreamState { inbound: s.inbound + later, ..s }
}

/// Later bytes change nothing of a step that needed no more bytes, and a step that waited for
/// bytes goes on from where it waited.
pub proof fn law_receive_resumes(s: StreamState, later: Seq<u8>)
    ensures
        if receive(s).1 is Read {
            receive(with_later(s, later)) == receive(with_later(receive(s).0, later))
        } else {
            receive(with_later(s, later)) == (with_later(receive(s).0, later), receive(s).1)
        },
    decreases s.inbound.len(),
{
    law_decoding_is_stable(s.inbound, later, s.max_frame);
    if s.outbound.len() == 0 {
        if let Decoded::Complete(frame, rest) = decoded(s.inbound, s.max_frame) {
            let next = StreamState { inbound: rest, ..s };
            if frame.command {
                match command(frame.body) {
                    Ok(CommandView::Ping { context, .. }) => law_receive_resumes(
                        StreamState { outbound: encoded(pong(context), false, true), ..next },
                        later,
                    ),
                    Ok(CommandView::Error(_)) => {},
                    Ok(_) => law_receive_resumes(next, later),
                    Err(_) => {},
                }
            } else if frame.more {
                law_receive_resumes(
                    StreamState { parts: s.parts.push(frame.body), ..next },
                    later,
                );
            }
        }
    }
}

/// A step reads forward only, and keeps the cap and the peer's metadata.
pub proof fn law_receive_keeps(s: StreamState)
    ensures
        receive(s).0.max_frame == s.max_frame,
        receive(s).0.peer_meta == s.peer_meta,
        receive(s).0.inbound.len() <= s.inbound.len(),
        receive(s).1 is Done ==> receive(s).0.inbound.len() < s.inbound.len(),
        receive(s).1 is Done ==> receive(s).0.outbound.len() == 0,
        receive(s).1 is Read ==> receive(s).0.outbound.len() == 0,
        receive(s).1 is Write ==> receive(s).0.outbound.len() > 0,
        s.outbound.len() > 0 ==> receive(s) == (s, Progress::Write),
        receive(s).1 is Write ==> receive(s).0.inbound.len() < s.inbound.len() || receive(s).0 == s,
    decreases s.inbound.len(),
{
    if s.outbound.len() == 0 {
        if let Decoded::Complete(frame, rest) = decoded(s.inbound, s.max_frame) {
            let next = StreamState { inbound: rest, ..s };
            if frame.command {
                match command(frame.body) {
                    Ok(CommandView::Ping { context, .. }) => law_receive_keeps(
                        StreamState { outbound: encoded(pong(context), false, true), ..next },
                    ),
                    Ok(CommandView::Error(_)) => {},
                    Ok(_) => law_receive_keeps(next),
                    Err(_) => {},
                }
            } else if frame.more {
                law_receive_keeps(StreamState { parts: s.parts.push(frame.body), ..next });
            }
        }
    }
}

/// How a run over the bytes at hand ends.
pub enum End {
    /// It waits for the peer's next bytes.
    Waiting(StreamState),
    /// The connection has failed, and why.
    Failed(Seq<char>),
}

/// What comes of calling for messages again and again, with everything queued written at once.
#[verifier::ext_equal]
pub struct Conversation {
    /// The bytes written to the peer.
    pub sent: Seq<u8>,
    /// The messages received.
    pub messages: Seq<Seq<Seq<u8>>>,
    /// How it ends.
    pub end: End,
}

/// `c` after some bytes were written and some messages received.
pub open spec fn after(
    sent: Seq<u8>,
    messages: Seq<Seq<Seq<u8>>>,
    c: Conversation,
) -> Conversation {
    Conversation { sent: sent + c.sent, messages: messages + c.messages, end: c.end }
}

/// `s` once everything queued has been written.
pub open spec fn written(s: StreamState) -> StreamState {
    StreamState { outbound: Seq::empty(), ..s }
}

/// Receive messages until the peer's next bytes are needed or the connection fails.
pub open spec fn converse(s: StreamState) -> Conversation
    decreases s.inbound.len(), s.outbound.len(),
{
    proof {
        law_receive_keeps(s);
    }
    let none = Seq::<Seq<Seq<u8>>>::empty();
    match receive(s) {
        (next, Progress::Read) => Conversation {
            sent: Seq::empty(),
            messages: none,
            end: End::Waiting(next),
        },
        (_, Progress::Fail(msg)) => Conversation {
            sent: Seq::empty(),
            messages: none,
            end: End::Failed(msg),
        },
        (next, Progress::Write) => after(next.outbound, none, converse(written(next))),
        (next, Progress::Done(message)) => after(Seq::empty(), seq![message], converse(next)),
    }
}

/// However the peer's bytes are cut up, the same messages come out of them and the same bytes are
/// written: what was received before a cut is never lost, and the run goes on from where it
/// waited.
pub proof fn law_cuts_do_not_matter(s: StreamState, later: Seq<u8>)
    ensures
        converse(with_later(s, later)) == match converse(s).end {
            End::Waiting(waiting) => after(
                converse(s).sent,
                converse(s).messages,
                converse(with_later(waiting, later)),
            ),
            End::Failed(_) => converse(s),
        },
    decreases s.inbound.len(), s.outbound.len(),
{
    law_receive_keeps(s);
    law_receive_resumes(s, later);
    let (next, progress) = receive(s);
    match progress {
        Progress::Read => {
            let rest = converse(with_later(next, later));
            assert(after(Seq::empty(), Seq::empty(), rest) =~= rest);
        },
        Progress::Fail(_) => {},
        Progress::Write => {
            law_cuts_do_not_matter(written(next), later);
            assert(written(with_later(next, later)) == with_later(written(next), later));
            let c = converse(written(next));
            if let End::Waiting(waiting) = c.end {
                let rest = converse(with_later(waiting, later));
                assert(after(next.outbound, Seq::empty(), after(c.sent, c.messages, rest)) =~= after(
                    next.outbound + c.sent,
                    Seq::empty() + c.messages,
                    rest,
                ));
            }
        },
        Progress::Done(message) => {
            law_cuts_do_not_matter(next, later);
            let c = converse(next);
            if let End::Waiting(waiting) = c.end {
                let rest = converse(with_later(waiting, later));
                assert(after(Seq::empty(), seq![message], after(c.sent, c.messages, rest)) =~= after(
                    Seq::empty() + c.sent,
                    seq![message] + c.messages,
                    rest,
                ));
            }
        },
    }
}

/// A receive that is dropped where it was to write or to read loses nothing: the run from the
/// state that it left is the run from where it began.
pub proof fn law_dropped_receive_resumes(s: StreamState)
    requires
        receive(s).1 is Write || receive(s).1 is Read,
    ensures
        converse(receive(s).0) == converse(s),
{
    let next = receive(s).0;
    law_receive_keeps(s);
    if receive(s).1 is Write {
        law_receive_keeps(next);
    } else {
        let none = Seq::<u8>::empty();
        law_receive_resumes(s, none);
        assert(with_later(s, none) =~= s);
        assert(with_later(next, none) =~= next);
    }
}

/// Writing may stop after any number of bytes and go on later: the run from there on writes the
/// rest, receives the same messages, and ends the same.
pub proof fn law_stopped_write_resumes(s: StreamState, n: nat)
    requires
        n <= s.outbound.len(),
    ensures
        after(
            s.outbound.take(n as int),
            Seq::empty(),
            converse(StreamState { outbound: s.outbound.skip(n as int), ..s }),
        ) == converse(s),
{
    let none = Seq::<Seq<Seq<u8>>>::empty();
    let front = s.outbound.take(n as int);
    let back = s.outbound.skip(n as int);
    let stopped = StreamState { outbound: back, ..s };
    let rest = converse(written(s));
    law_receive_keeps(s);
    law_receive_keeps(stopped);
    if n == 0 {
        assert(stopped =~= s);
        assert(after(front, none, converse(s)) =~= converse(s));
    } else {
        assert(converse(s) == after(s.outbound, none, rest));
        if back.len() == 0 {
            assert(stopped =~= written(s));
            assert(front =~= s.outbound);
        } else {
            assert(written(stopped) =~= written(s));
            assert(converse(stopped) == after(back, none, rest));
            assert(front + back =~= s.outbound);
            assert(after(front, none, after(back, none, rest)) =~= after(s.outbound, none, rest));
        }
    }
}

/// The number of bytes in the parts of a message.
pub open spec fn total_len(parts: Seq<Seq<u8>>) -> nat
    decreases parts.len(),
{
    if parts.len() == 0 {
        0
    } else {
        total_len(parts.drop_last()) + parts.last().len()
    }
}

/// The number of bytes that a connection holds.
pub open spec fn held(s: StreamState) -> nat {
    s.inbound.len() + s.outbound.len() + total_len(s.parts)
}

/// Receiving never makes a connection grow: what it holds afterwards, together with a message
/// that it delivers, is no more than what it held before.
pub proof fn law_receiving_does_not_grow(s: StreamState)
    ensures
        held(receive(s).0) + match receive(s).1 {
            Progress::Done(message) => total_len(message),
            _ => 0,
        } <= held(s),
    decreases s.inbound.len(),
{
    if s.outbound.len() == 0 {
        if let Decoded::Complete(frame, rest) = decoded(s.inbound, s.max_frame) {
            let next = StreamState { inbound: rest, ..s };
            if frame.command {
                match command(frame.body) {
                    Ok(CommandView::Ping { context, .. }) => {
                        lemma_pong_fits(s.inbound, s.max_frame);
                        law_receiving_does_not_grow(
                            StreamState { outbound: encoded(pong(context), false, true), ..next },
                        );
                    },
                    Ok(CommandView::Error(_)) => {},
                    Ok(_) => law_receiving_does_not_grow(next),
                    Err(_) => {},
                }
            } else {
                let grown = s.parts.push(frame.body);
                assert(grown.drop_last() =~= s.parts);
                assert(total_len(grown) == total_len(s.parts) + frame.body.len());
                if frame.more {
                    law_receiving_does_not_grow(StreamState { parts: grown, ..next });
                }
            }
        }
    }
}

/// Whether no part exceeds the cap, nor what a frame can announce.
pub open spec fn within_cap(parts: Seq<Seq<u8>>, max_frame: nat) -> bool {
    forall|i: int|
        0 <= i < parts.len() ==> (#[trigger] parts[i]).len() <= max_frame && parts[i].len()
            <= u64::MAX
}

/// No part that is collected or delivered exceeds the cap, and no message is without parts.
pub proof fn law_cap_is_kept(s: StreamState)
    requires
        within_cap(s.parts, s.max_frame),
        s.max_frame <= u64::MAX,
    ensures
        within_cap(receive(s).0.parts, s.max_frame),
        receive(s).1 matches Progress::Done(message) ==> within_cap(message, s.max_frame)
            && message.len() > 0,
    decreases s.inbound.len(),
{
    if s.outbound.len() == 0 {
        if let Decoded::Complete(frame, rest) = decoded(s.inbound, s.max_frame) {
            let next = StreamState { inbound: rest, ..s };
            if frame.command {
                match command(frame.body) {
                    Ok(CommandView::Ping { context, .. }) => law_cap_is_kept(
                        StreamState { outbound: encoded(pong(context), false, true), ..next },
                    ),
                    Ok(CommandView::Error(_)) => {},
                    Ok(_) => law_cap_is_kept(next),
                    Err(_) => {},
                }
            } else if frame.more {
                law_cap_is_kept(StreamState { parts: s.parts.push(frame.body), ..next });
            }
        }
    }
}

/// The rest of a message completes the parts received before it.
proof fn lemma_rest_of_message(s: StreamState, parts: Seq<Seq<u8>>, tail: Seq<u8>)
    requires
        s.outbound.len() == 0,
        s.inbound == multipart(parts) + tail,
        parts.len() > 0,
        within_cap(parts, s.max_frame),
    ensures
        receive(s) == (
            StreamState { inbound: tail, parts: Seq::empty(), ..s },
            Progress::Done(s.parts + parts),
        ),
    decreases parts.len(),
{
    let rest = multipart(parts.skip(1)) + tail;
    assert(s.inbound =~= encoded(parts[0], parts.len() > 1, false) + rest);
    law_frame_round_trip(parts[0], parts.len() > 1, false, rest, s.max_frame);
    if parts.len() > 1 {
        let next = StreamState { inbound: rest, parts: s.parts.push(parts[0]), ..s };
        assert forall|i: int| 0 <= i < parts.skip(1).len() implies (#[trigger] parts.skip(
            1,
        )[i]).len() <= s.max_frame && parts.skip(1)[i].len() <= u64::MAX by {
            assert(parts.skip(1)[i] == parts[i + 1]);
        }
        lemma_rest_of_message(next, parts.skip(1), tail);
        assert(s.parts.push(parts[0]) + parts.skip(1) =~= s.parts + parts);
    } else {
        assert(multipart(parts.skip(1)) =~= Seq::empty());
        assert(rest =~= tail);
        assert(s.parts.push(parts[0]) =~= s.parts + parts);
    }
}

/// A message that one side sends is the message that the other receives, part by part, and the
/// bytes after it are left alone.
pub proof fn law_message_round_trip(s: StreamState, message: Seq<Seq<u8>>, tail: Seq<u8>)
    requires
        s.inbound == multipart(message) + tail,
        s.outbound.len() == 0,
        s.parts.len() == 0,
        message.len() > 0,
        within_cap(message, s.max_frame),
    ensures
        receive(s) == (StreamState { inbound: tail, ..s }, Progress::Done(message)),
{
    lemma_rest_of_message(s, message, tail);
    assert(s.parts + message =~= message);
    assert(s.parts =~= Seq::empty());
}

/// The bytes of several messages, one after the other.
pub open spec fn stream_of(messages: Seq<Seq<Seq<u8>>>) -> Seq<u8>
    decreases messages.len(),
{
    if messages.len() == 0 {
        Seq::empty()
    } else {
        multipart(messages[0]) + stream_of(messages.skip(1))
    }
}

/// Messages arrive whole and in the order in which they were sent.
pub proof fn law_messages_arrive_in_order(
    s: StreamState,
    messages: Seq<Seq<Seq<u8>>>,
    tail: Seq<u8>,
)
    requires
        s.inbound == stream_of(messages) + tail,
        s.outbound.len() == 0,
        s.parts.len() == 0,
        forall|i: int|
            0 <= i < messages.len() ==> (#[trigger] messages[i]).len() > 0 && within_cap(
                messages[i],
                s.max_frame,
            ),
    ensures
        converse(s) == after(
            Seq::empty(),
            messages,
            converse(StreamState { inbound: tail, ..s }),
        ),
    decreases messages.len(),
{
    let quiet = StreamState { inbound: tail, ..s };
    if messages.len() == 0 {
        assert(s.inbound =~= tail);
        assert(after(Seq::empty(), messages, converse(quiet)) =~= converse(quiet));
    } else {
        let rest = stream_of(messages.skip(1)) + tail;
        let next = StreamState { inbound: rest, ..s };
        assert(s.inbound =~= multipart(messages[0]) + rest);
        law_message_round_trip(s, messages[0], rest);
        assert forall|i: int| 0 <= i < messages.skip(1).len() implies (#[trigger] messages.skip(
            1,
        )[i]).len() > 0 && within_cap(messages.skip(1)[i], s.max_frame) by {
            assert(messages.skip(1)[i] == messages[i + 1]);
        }
        law_messages_arrive_in_order(next, messages.skip(1), tail);
        assert(after(
            Seq::empty(),
            seq![messages[0]],
            after(Seq::empty(), messages.skip(1), converse(quiet)),
        ) =~= after(Seq::empty(), messages, converse(quiet))) by {
            assert(seq![messages[0]] + (messages.skip(1) + converse(quiet).messages) =~= messages
                + converse(quiet).messages);
        }
    }
}

/// What goes over the wire when `n` bytes of a first message and of what was queued before it are
/// written, then a second message is queued, and then the rest is written.
pub open spec fn stopped_and_resumed(
    s: StreamState,
    first: Seq<Seq<u8>>,
    second: Seq<Seq<u8>>,
    n: nat,
) -> Seq<u8> {
    let queued = StreamState { outbound: s.outbound + multipart(first), ..s };
    let stopped = StreamState { outbound: queued.outbound.skip(n as int), ..queued };
    let resumed = StreamState { outbound: stopped.outbound + multipart(second), ..stopped };
    queued.outbound.take(n as int) + resumed.outbound
}

/// A send that stops after any number of bytes loses nothing: once it is resumed, both messages
/// have gone out whole and in order, behind what was queued before them.
pub proof fn law_send_resumes(
    s: StreamState,
    first: Seq<Seq<u8>>,
    second: Seq<Seq<u8>>,
    n: nat,
)
    requires
        n <= (s.outbound + multipart(first)).len(),
    ensures
        stopped_and_resumed(s, first, second, n) == s.outbound + stream_of(seq![first, second]),
{
    let both = seq![first, second];
    assert(both.skip(1) =~= seq![second]);
    assert(both.skip(1).skip(1) =~= Seq::empty());
    assert(stream_of(both.skip(1).skip(1)) =~= Seq::empty());
    assert(stream_of(both.skip(1)) == multipart(both.skip(1)[0]) + stream_of(
        both.skip(1).skip(1),
    ));
    assert(stream_of(both) =~= multipart(first) + multipart(second));
    assert(stopped_and_resumed(s, first, second, n) =~= s.outbound + stream_of(both));
}

/// A connection at rest that hears some messages and no more receives just these.
proof fn lemma_just_messages(s: StreamState, messages: Seq<Seq<Seq<u8>>>)
    requires
        s.inbound.len() == 0,
        s.outbound.len() == 0,
        s.parts.len() == 0,
        forall|i: int|
            0 <= i < messages.len() ==> (#[trigger] messages[i]).len() > 0 && within_cap(
                messages[i],
                s.max_frame,
            ),
    ensures
        converse(with_later(s, stream_of(messages))).messages == messages,
{
    let none = Seq::<u8>::empty();
    let heard = with_later(s, stream_of(messages));
    assert(heard.inbound =~= stream_of(messages) + none);
    law_messages_arrive_in_order(heard, messages, none);
    let quiet = StreamState { inbound: none, ..heard };
    assert(receive(quiet) == (quiet, Progress::Read));
    assert(messages + converse(quiet).messages =~= messages);
}

/// The peer of a send that stops and is resumed receives both messages, whole and in order.
pub proof fn law_resumed_send_arrives(
    s: StreamState,
    first: Seq<Seq<u8>>,
    second: Seq<Seq<u8>>,
    n: nat,
    peer: StreamState,
)
    requires
        s.outbound.len() == 0,
        n <= multipart(first).len(),
        peer.inbound.len() == 0,
        peer.outbound.len() == 0,
        peer.parts.len() == 0,
        first.len() > 0,
        second.len() > 0,
        within_cap(first, peer.max_frame),
        within_cap(second, peer.max_frame),
    ensures
        converse(with_later(peer, stopped_and_resumed(s, first, second, n))).messages == seq![
            first,
            second,
        ],
{
    let both = seq![first, second];
    assert(n <= (s.outbound + multipart(first)).len());
    law_send_resumes(s, first, second, n);
    assert(s.outbound + stream_of(both) =~= stream_of(both));
    lemma_just_messages(peer, both);
}

/// A PING is answered with a PONG that echoes its context, and the parts received so far stay as
/// they are.
pub proof fn law_ping_is_answered(s: StreamState, ttl: u16, context: Seq<u8>, tail: Seq<u8>)
    requires
        s.inbound == encoded(ping(ttl, context), false, true) + tail,
        s.outbound.len() == 0,
        ping(ttl, context).len() <= s.max_frame,
        ping(ttl, context).len() <= u64::MAX,
    ensures
        receive(s) == (
            StreamState {
                inbound: tail,
                outbound: encoded(pong(context), false, true),
                ..s
            },
            Progress::Write,
        ),
{
    law_ping_is_read(ttl, context);
    law_frame_round_trip(ping(ttl, context), false, true, tail, s.max_frame);
    lemma_be_bytes_len(pong(context).len(), 8);
    let reply = encoded(pong(context), false, true);
    let answered = StreamState { inbound: tail, outbound: reply, ..s };
    assert(reply.len() > 0);
    assert(receive(answered) == (answered, Progress::Write));
}

/// A command that is no PING and no ERROR is skipped: receiving goes on behind it.
pub proof fn law_other_commands_are_skipped(
    s: StreamState,
    body: Seq<u8>,
    more: bool,
    tail: Seq<u8>,
)
    requires
        s.inbound == encoded(body, more, true) + tail,
        s.outbound.len() == 0,
        body.len() <= s.max_frame,
        body.len() <= u64::MAX,
        command(body) matches Ok(c) && (c is Ready || c is Other),
    ensures
        receive(s) == receive(StreamState { inbound: tail, ..s }),
{
    law_frame_round_trip(body, more, true, tail, s.max_frame);
}

/// A run that waits has written everything, and keeps the cap.
proof fn lemma_converse_waits(s: StreamState)
    ensures
        converse(s).end matches End::Waiting(waiting) ==> waiting.outbound.len() == 0
            && waiting.max_frame == s.max_frame && waiting.outbound =~= Seq::empty(),
    decreases s.inbound.len(), s.outbound.len(),
{
    law_receive_keeps(s);
    let (next, progress) = receive(s);
    match progress {
        Progress::Write => lemma_converse_waits(written(next)),
        Progress::Done(_) => lemma_converse_waits(next),
        _ => {},
    }
}

/// A PING between two frames changes none of the messages around it: it only adds its PONG to
/// what is written.
pub proof fn law_ping_between_frames(
    s: StreamState,
    ttl: u16,
    context: Seq<u8>,
    tail: Seq<u8>,
)
    requires
        converse(s).end matches End::Waiting(waiting) && waiting.inbound.len() == 0,
        ping(ttl, context).len() <= s.max_frame,
        ping(ttl, context).len() <= u64::MAX,
    ensures
        ({
            let plain = converse(with_later(s, tail));
            let pinged = converse(
                with_later(s, encoded(ping(ttl, context), false, true) + tail),
            );
            let cut = converse(s).sent.len() as int;
            &&& pinged.messages == plain.messages
            &&& pinged.end == plain.end
            &&& plain.sent.take(cut) == converse(s).sent
            &&& pinged.sent == plain.sent.take(cut) + encoded(pong(context), false, true)
                + plain.sent.skip(cut)
        }),
{
    let c = converse(s);
    let frame = encoded(ping(ttl, context), false, true);
    let reply = encoded(pong(context), false, true);
    let waiting = c.end->Waiting_0;
    lemma_converse_waits(s);
    law_cuts_do_not_matter(s, tail);
    law_cuts_do_not_matter(s, frame + tail);
    let start = with_later(waiting, frame + tail);
    assert(start.inbound =~= frame + tail);
    law_ping_is_answered(start, ttl, context, tail);
    let resumed = with_later(waiting, tail);
    assert(resumed.inbound =~= tail);
    let answered = StreamState { inbound: tail, outbound: reply, ..start };
    assert(written(answered) =~= resumed);
    let rest = converse(resumed);
    assert(converse(start) == after(reply, Seq::empty(), rest));
    let plain = converse(with_later(s, tail));
    let pinged = converse(with_later(s, frame + tail));
    assert(plain == after(c.sent, c.messages, rest));
    assert(pinged == after(c.sent, c.messages, after(reply, Seq::empty(), rest)));
    let cut = c.sent.len() as int;
    assert(plain.sent.take(cut) =~= c.sent);
    assert(plain.sent.skip(cut) =~= rest.sent);
    assert(pinged.sent =~= plain.sent.take(cut) + reply + plain.sent.skip(cut));
    assert(pinged.messages =~= plain.messages);
}

} // verus!
