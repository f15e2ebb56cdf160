//! What the encoder and the decoder guarantee together, proved over the
//! models in `byte_stuffing`.

use vstd::prelude::*;
use crate::byte_stuffing::{
    escape_all, escape_byte, first_event, frame, is_control, messages, run, step, DecoderError,
    Event, ReaderState, END_BYTE, ESCAPE_BYTE, START_BYTE,
};

verus! {

/// Every event is "nothing yet".
pub open spec fn quiet(events: Seq<Event>) -> bool {
    forall|i: int| 0 <= i < events.len() ==> events[i] == Ok::<Option<Seq<u8>>, DecoderError>(None)
}

/// The events are "nothing yet" up to the last one, which delivers `m`.
pub open spec fn delivers(events: Seq<Event>, m: Seq<u8>) -> bool {
    &&& events.len() >= 1
    &&& events.last() == Ok::<Option<Seq<u8>>, DecoderError>(Some(m))
    &&& quiet(events.drop_last())
}

/// No byte of `s` is `START`.
pub open spec fn no_start(s: Seq<u8>) -> bool {
    forall|i: int| 0 <= i < s.len() ==> s[i] != START_BYTE
}

/// Position `i` of `s` is neither `START` nor `END`, and an `ESCAPE` there is
/// followed by a non-control byte that stands for a control byte.
pub open spec fn escaped_at(s: Seq<u8>, i: int) -> bool {
    &&& s[i] != START_BYTE
    &&& s[i] != END_BYTE
    &&& s[i] == ESCAPE_BYTE ==> i + 1 < s.len() && !is_control(s[i + 1]) && is_control(
        0xFFu8 ^ s[i + 1],
    )
}

/// What may stand between the delimiters of a frame.
pub open spec fn well_escaped(s: Seq<u8>) -> bool {
    forall|i: int| 0 <= i < s.len() ==> #[trigger] escaped_at(s, i)
}

proof fn lemma_xor_ff(b: u8)
    ensures
        0xFFu8 ^ (0xFFu8 ^ b) == b,
        (b == 2u8 || b == 3u8 || b == 4u8) ==> (0xFFu8 ^ b) >= 0xFBu8,
{
    assert(0xFFu8 ^ (0xFFu8 ^ b) == b) by (bit_vector);
    assert((b == 2u8 || b == 3u8 || b == 4u8) ==> (0xFFu8 ^ b) >= 0xFBu8) by (bit_vector);
}

proof fn lemma_escape_all_well_escaped(p: Seq<u8>)
    ensures
        well_escaped(escape_all(p)),
    decreases p.len(),
{
    if p.len() > 0 {
        let t = escape_all(p.drop_first());
        lemma_escape_all_well_escaped(p.drop_first());
        lemma_xor_ff(p[0]);
        let e = escape_byte(p[0]);
        let s = escape_all(p);
        assert(s == e + t);
        assert forall|i: int| 0 <= i < s.len() implies #[trigger] escaped_at(s, i) by {
            if i >= e.len() {
                assert(escaped_at(t, i - e.len()));
                assert(s[i] == t[i - e.len()]);
                if s[i] == ESCAPE_BYTE {
                    assert(s[i + 1] == t[i + 1 - e.len()]);
                }
            }
        }
    }
}

/// The escaped payload and the closing `END` hold no `START`.
proof fn lemma_tail_no_start(p: Seq<u8>)
    ensures
        no_start(escape_all(p) + seq![END_BYTE]),
{
    lemma_escape_all_well_escaped(p);
    let s = escape_all(p) + seq![END_BYTE];
    assert forall|i: int| 0 <= i < s.len() implies s[i] != START_BYTE by {
        if i < escape_all(p).len() {
            assert(escaped_at(escape_all(p), i));
            assert(s[i] == escape_all(p)[i]);
        }
    }
}

proof fn lemma_run_append(st: ReaderState, partial: Seq<u8>, cap: nat, a: Seq<u8>, b: Seq<u8>)
    ensures
        ({
            let (s1, p1, e1) = run(st, partial, cap, a);
            let (s2, p2, e2) = run(s1, p1, cap, b);
            run(st, partial, cap, a + b) == (s2, p2, e1 + e2)
        }),
    decreases a.len(),
{
    if a.len() == 0 {
        assert(a + b =~= b);
        let (s2, p2, e2) = run(st, partial, cap, b);
        assert(Seq::<Event>::empty() + e2 =~= e2);
    } else {
        let (s1, p1, e) = step(st, partial, cap, a[0]);
        assert((a + b)[0] == a[0]);
        assert((a + b).drop_first() =~= a.drop_first() + b);
        lemma_run_append(s1, p1, cap, a.drop_first(), b);
        let (sa, pa, ea) = run(s1, p1, cap, a.drop_first());
        let (sb, pb, eb) = run(sa, pa, cap, b);
        assert(seq![e] + (ea + eb) =~= (seq![e] + ea) + eb);
    }
}

proof fn lemma_messages_append(e1: Seq<Event>, e2: Seq<Event>)
    ensures
        messages(e1 + e2) == messages(e1) + messages(e2),
    decreases e1.len(),
{
    if e1.len() == 0 {
        assert(e1 + e2 =~= e2);
        assert(Seq::<Seq<u8>>::empty() + messages(e2) =~= messages(e2));
    } else {
        assert((e1 + e2)[0] == e1[0]);
        assert((e1 + e2).drop_first() =~= e1.drop_first() + e2);
        lemma_messages_append(e1.drop_first(), e2);
        match e1[0] {
            Ok(Some(m)) => {
                assert(seq![m] + (messages(e1.drop_first()) + messages(e2)) =~= (seq![m]
                    + messages(e1.drop_first())) + messages(e2));
            },
            _ => {},
        }
    }
}

proof fn lemma_quiet_messages(events: Seq<Event>)
    requires
        quiet(events),
    ensures
        messages(events) == Seq::<Seq<u8>>::empty(),
    decreases events.len(),
{
    if events.len() > 0 {
        assert(quiet(events.drop_first())) by {
            assert forall|i: int| 0 <= i < events.drop_first().len() implies events.drop_first()[i]
                == Ok::<Option<Seq<u8>>, DecoderError>(None) by {
                assert(events.drop_first()[i] == events[i + 1]);
            }
        }
        lemma_quiet_messages(events.drop_first());
    }
}

proof fn lemma_delivers_messages(events: Seq<Event>, m: Seq<u8>)
    requires
        delivers(events, m),
    ensures
        messages(events) == seq![m],
{
    assert(events =~= events.drop_last() + seq![events.last()]);
    lemma_messages_append(events.drop_last(), seq![events.last()]);
    lemma_quiet_messages(events.drop_last());
    let one: Seq<Event> = seq![events.last()];
    assert(one.drop_first() =~= Seq::<Event>::empty());
    assert(messages(Seq::<Event>::empty()) == Seq::<Seq<u8>>::empty());
    assert(messages(one) =~= seq![m]);
    assert(Seq::<Seq<u8>>::empty() + seq![m] =~= seq![m]);
}

/// Prepending a "nothing yet" keeps `delivers`.
proof fn lemma_delivers_cons(events: Seq<Event>, m: Seq<u8>)
    requires
        delivers(events, m),
    ensures
        delivers(seq![Ok::<Option<Seq<u8>>, DecoderError>(None)] + events, m),
{
    let all = seq![Ok::<Option<Seq<u8>>, DecoderError>(None)] + events;
    assert(all.last() == events.last());
    assert forall|i: int| 0 <= i < all.drop_last().len() implies all.drop_last()[i] == Ok::<
        Option<Seq<u8>>,
        DecoderError,
    >(None) by {
        if i > 0 {
            assert(all.drop_last()[i] == events.drop_last()[i - 1]);
        }
    }
}

/// In `WaitingForStart`, input without `START` is ignored.
proof fn lemma_waiting_ignores(cap: nat, input: Seq<u8>)
    requires
        no_start(input),
    ensures
        ({
            let (s, p, events) = run(ReaderState::WaitingForStart, Seq::empty(), cap, input);
            &&& s == ReaderState::WaitingForStart
            &&& p == Seq::<u8>::empty()
            &&& quiet(events)
            &&& events.len() == input.len()
        }),
    decreases input.len(),
{
    if input.len() > 0 {
        assert(no_start(input.drop_first())) by {
            assert forall|i: int| 0 <= i < input.drop_first().len() implies input.drop_first()[i]
                != START_BYTE by {
                assert(input.drop_first()[i] == input[i + 1]);
            }
        }
        lemma_waiting_ignores(cap, input.drop_first());
        let (s, p, events) = run(
            ReaderState::WaitingForStart,
            Seq::empty(),
            cap,
            input.drop_first(),
        );
        let all = seq![Ok::<Option<Seq<u8>>, DecoderError>(None)] + events;
        assert forall|i: int| 0 <= i < all.len() implies all[i] == Ok::<
            Option<Seq<u8>>,
            DecoderError,
        >(None) by {
            if i > 0 {
                assert(all[i] == events[i - 1]);
            }
        }
    }
}

/// Inside a message holding `q`, the rest of the frame of `p` delivers
/// `q + p` when it fits.
proof fn lemma_body_delivers(q: Seq<u8>, cap: nat, p: Seq<u8>)
    requires
        q.len() + p.len() <= cap,
    ensures
        ({
            let (s, r, events) = run(
                ReaderState::InsideMessage,
                q,
                cap,
                escape_all(p) + seq![END_BYTE],
            );
            &&& s == ReaderState::WaitingForStart
            &&& r == Seq::<u8>::empty()
            &&& delivers(events, q + p)
        }),
    decreases p.len(),
{
    let input = escape_all(p) + seq![END_BYTE];
    if p.len() == 0 {
        assert(input =~= seq![END_BYTE]);
        assert(input.drop_first() =~= Seq::<u8>::empty());
        assert(q + p =~= q);
        let events: Seq<Event> = seq![Ok::<Option<Seq<u8>>, DecoderError>(Some(q))];
        assert(events.drop_last() =~= Seq::<Event>::empty());
        assert(run(ReaderState::WaitingForStart, Seq::empty(), cap, Seq::empty()) == (
            ReaderState::WaitingForStart,
            Seq::<u8>::empty(),
            Seq::<Event>::empty(),
        ));
        assert(seq![Ok::<Option<Seq<u8>>, DecoderError>(Some(q))] + Seq::<Event>::empty()
            =~= events);
    } else {
        let b = p[0];
        let rest = escape_all(p.drop_first()) + seq![END_BYTE];
        lemma_xor_ff(b);
        lemma_body_delivers(q.push(b), cap, p.drop_first());
        assert(q.push(b) + p.drop_first() =~= q + p);
        let (s, r, events) = run(ReaderState::InsideMessage, q.push(b), cap, rest);
        if is_control(b) {
            let x = 0xFFu8 ^ b;
            assert(input =~= seq![ESCAPE_BYTE, x] + rest);
            assert(input.drop_first() =~= seq![x] + rest);
            assert(input.drop_first().drop_first() =~= rest);
            assert(input[0] == ESCAPE_BYTE);
            assert(input.drop_first()[0] == x);
            assert(step(ReaderState::InsideMessageEscaping, q, cap, x) == (
                ReaderState::InsideMessage,
                q.push(b),
                Ok::<Option<Seq<u8>>, DecoderError>(None),
            ));
            let none = Ok::<Option<Seq<u8>>, DecoderError>(None);
            assert(run(ReaderState::InsideMessageEscaping, q, cap, input.drop_first()) == (
                s,
                r,
                seq![none] + events,
            ));
            assert(run(ReaderState::InsideMessage, q, cap, input) == (
                s,
                r,
                seq![none] + (seq![none] + events),
            ));
            lemma_delivers_cons(events, q + p);
            lemma_delivers_cons(seq![none] + events, q + p);
        } else {
            assert(input =~= seq![b] + rest);
            assert(input.drop_first() =~= rest);
            assert(input[0] == b);
            assert(run(ReaderState::InsideMessage, q, cap, input) == (
                s,
                r,
                seq![Ok::<Option<Seq<u8>>, DecoderError>(None)] + events,
            ));
            lemma_delivers_cons(events, q + p);
        }
    }
}

/// Inside a message holding `q`, the rest of the frame of a `p` that does not
/// fit reports `BufferTooSmall` once and delivers nothing.
proof fn lemma_body_overflows(q: Seq<u8>, cap: nat, p: Seq<u8>)
    requires
        q.len() <= cap < q.len() + p.len(),
    ensures
        ({
            let (s, r, events) = run(
                ReaderState::InsideMessage,
                q,
                cap,
                escape_all(p) + seq![END_BYTE],
            );
            &&& s == ReaderState::WaitingForStart
            &&& r == Seq::<u8>::empty()
            &&& messages(events) == Seq::<Seq<u8>>::empty()
            &&& events.contains(Err::<Option<Seq<u8>>, DecoderError>(DecoderError::BufferTooSmall))
        }),
    decreases p.len(),
{
    let input = escape_all(p) + seq![END_BYTE];
    let b = p[0];
    let rest = escape_all(p.drop_first()) + seq![END_BYTE];
    let none = Ok::<Option<Seq<u8>>, DecoderError>(None);
    let full = Err::<Option<Seq<u8>>, DecoderError>(DecoderError::BufferTooSmall);
    lemma_xor_ff(b);
    // The events of the bytes from `rest` on, and the state before them.
    let (s0, p0, e0) = if q.len() < cap {
        (ReaderState::InsideMessage, q.push(b), none)
    } else {
        (ReaderState::WaitingForStart, Seq::<u8>::empty(), full)
    };
    let (s, r, events) = run(s0, p0, cap, rest);
    if q.len() < cap {
        lemma_body_overflows(q.push(b), cap, p.drop_first());
    } else {
        lemma_tail_no_start(p.drop_first());
        lemma_waiting_ignores(cap, rest);
        lemma_quiet_messages(events);
    }
    assert(messages(seq![e0] + events) == messages(events)) by {
        assert((seq![e0] + events).drop_first() =~= events);
    }
    assert((seq![e0] + events).contains(full)) by {
        if q.len() < cap {
            let k = choose|k: int| 0 <= k < events.len() && events[k] == full;
            assert((seq![e0] + events)[k + 1] == full);
        } else {
            assert((seq![e0] + events)[0] == full);
        }
    }
    if is_control(b) {
        let x = 0xFFu8 ^ b;
        assert(input =~= seq![ESCAPE_BYTE, x] + rest);
        assert(input.drop_first() =~= seq![x] + rest);
        assert(input.drop_first().drop_first() =~= rest);
        assert(input[0] == ESCAPE_BYTE);
        assert(input.drop_first()[0] == x);
        let all = seq![none] + (seq![e0] + events);
        assert(all.drop_first() =~= seq![e0] + events);
        assert(step(ReaderState::InsideMessageEscaping, q, cap, x) == (s0, p0, e0));
        assert(run(ReaderState::InsideMessageEscaping, q, cap, input.drop_first()) == (
            s,
            r,
            seq![e0] + events,
        ));
        assert(run(ReaderState::InsideMessage, q, cap, input) == (s, r, all));
        assert(messages(all) == messages(seq![e0] + events));
        assert(all.contains(full)) by {
            let k = choose|k: int|
                0 <= k < (seq![e0] + events).len() && (seq![e0] + events)[k] == full;
            assert(all[k + 1] == full);
        }
    } else {
        assert(input =~= seq![b] + rest);
        assert(input.drop_first() =~= rest);
        assert(input[0] == b);
        assert(run(ReaderState::InsideMessage, q, cap, input) == (s, r, seq![e0] + events));
    }
}

/// Round trip: from any decoder state, the frame of a payload that fits
/// delivers exactly that payload with its last byte, and leaves the decoder
/// waiting for the next frame. `from_reader` on it returns the payload and
/// takes the whole frame.
pub proof fn lemma_round_trip(st: ReaderState, partial: Seq<u8>, cap: nat, p: Seq<u8>)
    requires
        p.len() <= cap,
    ensures
        ({
            let (s, r, events) = run(st, partial, cap, frame(p));
            &&& s == ReaderState::WaitingForStart
            &&& r == Seq::<u8>::empty()
            &&& delivers(events, p)
            &&& messages(events) == seq![p]
        }),
        first_event(st, partial, cap, frame(p)) == (
            frame(p).len(),
            ReaderState::WaitingForStart,
            Seq::<u8>::empty(),
            Ok::<Option<Seq<u8>>, DecoderError>(Some(p)),
        ),
{
    let body = escape_all(p) + seq![END_BYTE];
    assert(frame(p) =~= seq![START_BYTE] + body);
    assert(frame(p).drop_first() =~= body);
    lemma_body_delivers(Seq::empty(), cap, p);
    assert(Seq::<u8>::empty() + p =~= p);
    let (s, r, events) = run(ReaderState::InsideMessage, Seq::empty(), cap, body);
    lemma_delivers_cons(events, p);
    lemma_delivers_messages(seq![Ok::<Option<Seq<u8>>, DecoderError>(None)] + events, p);
    lemma_first_event_of_delivers(ReaderState::InsideMessage, Seq::empty(), cap, body, p);
}

proof fn lemma_run_len(st: ReaderState, partial: Seq<u8>, cap: nat, input: Seq<u8>)
    ensures
        run(st, partial, cap, input).2.len() == input.len(),
    decreases input.len(),
{
    if input.len() > 0 {
        let (s1, p1, e) = step(st, partial, cap, input[0]);
        lemma_run_len(s1, p1, cap, input.drop_first());
    }
}

/// When feeding `input` delivers `m` with its last byte, `first_event` stops
/// exactly there.
proof fn lemma_first_event_of_delivers(
    st: ReaderState,
    partial: Seq<u8>,
    cap: nat,
    input: Seq<u8>,
    m: Seq<u8>,
)
    requires
        delivers(run(st, partial, cap, input).2, m),
    ensures
        ({
            let (s, r, events) = run(st, partial, cap, input);
            first_event(st, partial, cap, input) == (
                input.len(),
                s,
                r,
                Ok::<Option<Seq<u8>>, DecoderError>(Some(m)),
            )
        }),
    decreases input.len(),
{
    lemma_run_len(st, partial, cap, input);
    let (s1, p1, e) = step(st, partial, cap, input[0]);
    let (s2, p2, es) = run(s1, p1, cap, input.drop_first());
    lemma_run_len(s1, p1, cap, input.drop_first());
    let events = seq![e] + es;
    if input.len() == 1 {
        assert(es.len() == 0);
        assert(events.last() == e);
    } else {
        assert(events.drop_last()[0] == e);
        assert(es.last() == events.last());
        assert forall|i: int| 0 <= i < es.drop_last().len() implies es.drop_last()[i] == Ok::<
            Option<Seq<u8>>,
            DecoderError,
        >(None) by {
            assert(es.drop_last()[i] == events.drop_last()[i + 1]);
        }
        lemma_first_event_of_delivers(s1, p1, cap, input.drop_first(), m);
    }
}

/// Structure: a frame starts with `START`, ends with `END`, and between them
/// holds no `START` or `END`; every `ESCAPE` there is followed by a byte that
/// stands for a control byte.
pub proof fn lemma_frame_shape(p: Seq<u8>)
    ensures
        frame(p).len() >= 2,
        frame(p)[0] == START_BYTE,
        frame(p).last() == END_BYTE,
        well_escaped(frame(p).subrange(1, frame(p).len() - 1)),
{
    lemma_escape_all_well_escaped(p);
    assert(frame(p).subrange(1, frame(p).len() - 1) =~= escape_all(p));
}

/// Bounds: fed any bytes, the message being assembled never outgrows the
/// buffer, and no delivered message is longer than the buffer.
pub proof fn lemma_within_capacity(st: ReaderState, partial: Seq<u8>, cap: nat, input: Seq<u8>)
    requires
        partial.len() <= cap,
    ensures
        run(st, partial, cap, input).1.len() <= cap,
        forall|i: int|
            0 <= i < messages(run(st, partial, cap, input).2).len() ==> (#[trigger] messages(
                run(st, partial, cap, input).2,
            )[i]).len() <= cap,
    decreases input.len(),
{
    if input.len() > 0 {
        let (s1, p1, e) = step(st, partial, cap, input[0]);
        lemma_within_capacity(s1, p1, cap, input.drop_first());
        let (s2, p2, es) = run(s1, p1, cap, input.drop_first());
        let all = seq![e] + es;
        assert(all.drop_first() =~= es);
        match e {
            Ok(Some(m)) => {
                assert(m == partial);
                assert forall|i: int| 0 <= i < messages(all).len() implies (#[trigger] messages(
                    all,
                )[i]).len() <= cap by {
                    if i > 0 {
                        assert(messages(all)[i] == messages(es)[i - 1]);
                    }
                }
            },
            _ => {
                assert(messages(all) == messages(es));
            },
        }
    }
}

/// Resynchronization: after noise without `START`, a fresh decoder delivers
/// the payloads of two following frames, in order, and nothing else.
pub proof fn lemma_resync(cap: nat, noise: Seq<u8>, a: Seq<u8>, b: Seq<u8>)
    requires
        no_start(noise),
        a.len() <= cap,
        b.len() <= cap,
    ensures
        ({
            let (s, r, events) = run(
                ReaderState::WaitingForStart,
                Seq::empty(),
                cap,
                noise + frame(a) + frame(b),
            );
            &&& s == ReaderState::WaitingForStart
            &&& messages(events) == seq![a, b]
        }),
{
    let w = ReaderState::WaitingForStart;
    let e = Seq::<u8>::empty();
    lemma_waiting_ignores(cap, noise);
    let (_, _, en) = run(w, e, cap, noise);
    lemma_quiet_messages(en);
    lemma_round_trip(w, e, cap, a);
    lemma_round_trip(w, e, cap, b);
    let (_, _, ea) = run(w, e, cap, frame(a));
    let (_, _, eb) = run(w, e, cap, frame(b));
    lemma_run_append(w, e, cap, noise, frame(a));
    lemma_run_append(w, e, cap, noise + frame(a), frame(b));
    lemma_messages_append(en, ea);
    lemma_messages_append(en + ea, eb);
    assert(Seq::<Seq<u8>>::empty() + seq![a] + seq![b] =~= seq![a, b]);
}

/// Corruption recovery: an escape of a byte that is no control byte drops the
/// frame with `InvalidEscape`, and the next frame is delivered as usual.
pub proof fn lemma_invalid_escape_recovery(cap: nat, p: Seq<u8>)
    requires
        p.len() <= cap,
    ensures
        ({
            let bad = seq![START_BYTE, ESCAPE_BYTE, 0x10u8, END_BYTE];
            let (s, r, events) = run(ReaderState::WaitingForStart, Seq::empty(), cap, bad + frame(p));
            &&& events[2] == Err::<Option<Seq<u8>>, DecoderError>(DecoderError::InvalidEscape(0x10))
            &&& messages(events) == seq![p]
            &&& s == ReaderState::WaitingForStart
        }),
{
    let w = ReaderState::WaitingForStart;
    let e = Seq::<u8>::empty();
    let bad = seq![START_BYTE, ESCAPE_BYTE, 0x10u8, END_BYTE];
    assert((0xFFu8 ^ 0x10u8) == 0xEFu8) by (bit_vector);
    let none = Ok::<Option<Seq<u8>>, DecoderError>(None);
    let invalid = Err::<Option<Seq<u8>>, DecoderError>(DecoderError::InvalidEscape(0x10));
    let b3 = bad.drop_first().drop_first().drop_first();
    assert(b3 =~= seq![END_BYTE]);
    assert(b3.drop_first() =~= Seq::<u8>::empty());
    assert(run(w, e, cap, b3.drop_first()) == (w, e, Seq::<Event>::empty()));
    assert(run(w, e, cap, b3) == (w, e, seq![none] + Seq::<Event>::empty()));
    assert(bad[0] == START_BYTE);
    assert(bad.drop_first()[0] == ESCAPE_BYTE);
    assert(bad.drop_first().drop_first()[0] == 0x10u8);
    assert(bad.drop_first().drop_first().drop_first() == b3);
    assert(run(ReaderState::InsideMessageEscaping, e, cap, bad.drop_first().drop_first()) == (
        w,
        e,
        seq![invalid] + (seq![none] + Seq::<Event>::empty()),
    ));
    let eb = seq![none, none, invalid, none];
    assert(run(ReaderState::InsideMessage, e, cap, bad.drop_first()) == (
        w,
        e,
        seq![none] + (seq![invalid] + (seq![none] + Seq::<Event>::empty())),
    ));
    assert(run(w, e, cap, bad) == (w, e, eb)) by {
        assert(seq![none] + (seq![none] + (seq![invalid] + (seq![none] + Seq::<Event>::empty())))
            =~= eb);
    }
    lemma_round_trip(w, e, cap, p);
    let (_, _, ep) = run(w, e, cap, frame(p));
    lemma_run_append(w, e, cap, bad, frame(p));
    lemma_messages_append(eb, ep);
    assert(messages(eb) == Seq::<Seq<u8>>::empty()) by {
        assert(eb.drop_first() =~= seq![none, invalid, none]);
        assert(eb.drop_first().drop_first() =~= seq![invalid, none]);
        assert(eb.drop_first().drop_first().drop_first() =~= seq![none]);
        assert(eb.drop_first().drop_first().drop_first().drop_first() =~= Seq::<Event>::empty());
        assert(messages(Seq::<Event>::empty()) == Seq::<Seq<u8>>::empty());
        assert(messages(seq![none]) == Seq::<Seq<u8>>::empty());
        assert(messages(seq![invalid, none]) == Seq::<Seq<u8>>::empty());
        assert(messages(seq![none, invalid, none]) == Seq::<Seq<u8>>::empty());
    }
    assert(Seq::<Seq<u8>>::empty() + seq![p] =~= seq![p]);
    assert((eb + ep)[2] == invalid);
}

/// Oversized frame: a frame whose payload does not fit reports
/// `BufferTooSmall` and delivers nothing; the next frame is delivered as usual.
pub proof fn lemma_oversized_frame(cap: nat, big: Seq<u8>, p: Seq<u8>)
    requires
        big.len() > cap,
        p.len() <= cap,
    ensures
        ({
            let (s, r, events) = run(
                ReaderState::WaitingForStart,
                Seq::empty(),
                cap,
                frame(big) + frame(p),
            );
            &&& events.contains(Err::<Option<Seq<u8>>, DecoderError>(DecoderError::BufferTooSmall))
            &&& messages(events) == seq![p]
            &&& s == ReaderState::WaitingForStart
        }),
{
    let w = ReaderState::WaitingForStart;
    let e = Seq::<u8>::empty();
    let full = Err::<Option<Seq<u8>>, DecoderError>(DecoderError::BufferTooSmall);
    let body = escape_all(big) + seq![END_BYTE];
    assert(frame(big) =~= seq![START_BYTE] + body);
    assert(frame(big).drop_first() =~= body);
    lemma_body_overflows(e, cap, big);
    let (_, _, eo) = run(ReaderState::InsideMessage, e, cap, body);
    let ebig = seq![Ok::<Option<Seq<u8>>, DecoderError>(None)] + eo;
    assert(run(w, e, cap, frame(big)) == (w, e, ebig));
    assert(messages(ebig) == messages(eo)) by {
        assert(ebig.drop_first() =~= eo);
    }
    lemma_round_trip(w, e, cap, p);
    let (_, _, ep) = run(w, e, cap, frame(p));
    lemma_run_append(w, e, cap, frame(big), frame(p));
    lemma_messages_append(ebig, ep);
    assert(Seq::<Seq<u8>>::empty() + seq![p] =~= seq![p]);
    let k = choose|k: int| 0 <= k < eo.len() && eo[k] == full;
    assert((ebig + ep)[k + 1] == full);
}

} // verus!
