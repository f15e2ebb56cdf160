//! Byte stuffing: every payload travels as `START`, escaped payload, `END`.
//! A payload byte that equals a control byte is sent as `ESCAPE` followed by
//! that byte XOR `0xFF`.

use vstd::prelude::*;

verus! {

/// Marks the beginning of a frame.
pub const START_BYTE: u8 = 0x02;

/// Marks the end of a frame.
pub const END_BYTE: u8 = 0x03;

/// Announces that the next byte is a control byte XOR `0xFF`.
pub const ESCAPE_BYTE: u8 = 0x04;

/// One of the three reserved wire values.
pub open spec fn is_control(b: u8) -> bool {
    b == START_BYTE || b == END_BYTE || b == ESCAPE_BYTE
}

/// What a single payload byte becomes on the wire.
pub open spec fn escape_byte(b: u8) -> Seq<u8> {
    if is_control(b) {
        seq![ESCAPE_BYTE, 0xFFu8 ^ b]
    } else {
        seq![b]
    }
}

/// The wire form of a payload, without its delimiters.
pub open spec fn escape_all(p: Seq<u8>) -> Seq<u8>
    decreases p.len(),
{
    if p.len() == 0 {
        Seq::empty()
    } else {
        escape_byte(p[0]) + escape_all(p.drop_first())
    }
}

/// The complete frame that carries payload `p`.
pub open spec fn frame(p: Seq<u8>) -> Seq<u8> {
    seq![START_BYTE] + escape_all(p) + seq![END_BYTE]
}

/// State for incremental encoding.
#[derive(Copy, Clone, Debug)]
pub enum EncodeState<'a> {
    Begin(&'a [u8]),
    Encoding(&'a [u8]),
    EscapedCharacter(u8, &'a [u8]),
}

impl<'a> EncodeState<'a> {
    /// The bytes that this state still has to emit, in order.
    pub open spec fn pending(self) -> Seq<u8> {
        match self {
            EncodeState::Begin(bytes) => frame(bytes@),
            EncodeState::Encoding(bytes) => escape_all(bytes@) + seq![END_BYTE],
            EncodeState::EscapedCharacter(c, bytes) => seq![0xFFu8 ^ c] + escape_all(bytes@) + seq![
                END_BYTE,
            ],
        }
    }

    /// Emits the next wire byte and the state that follows it (`None` once
    /// the closing `END` has been emitted).
    pub fn next(self) -> (r: (u8, Option<Self>))
        ensures
            seq![r.0] + pending_of(r.1) == self.pending(),
            match self {
                EncodeState::Begin(bytes) => r.0 == START_BYTE && r.1 == Some(
                    EncodeState::Encoding(bytes),
                ),
                EncodeState::Encoding(bytes) => if bytes@.len() == 0 {
                    r.0 == END_BYTE && r.1 == None::<EncodeState<'a>>
                } else if is_control(bytes@[0]) {
                    r.0 == ESCAPE_BYTE && match r.1 {
                        Some(EncodeState::EscapedCharacter(c, rest)) => c == bytes@[0] && rest@
                            == bytes@.drop_first(),
                        _ => false,
                    }
                } else {
                    r.0 == bytes@[0] && match r.1 {
                        Some(EncodeState::Encoding(rest)) => rest@ == bytes@.drop_first(),
                        _ => false,
                    }
                },
                EncodeState::EscapedCharacter(c, bytes) => r.0 == 0xFFu8 ^ c && r.1 == Some(
                    EncodeState::Encoding(bytes),
                ),
            },
    {
        match self {
            EncodeState::Begin(bytes) => {
                proof {
                    assert(seq![START_BYTE] + (escape_all(bytes@) + seq![END_BYTE]) =~= frame(bytes@));
                }
                (START_BYTE, Some(EncodeState::Encoding(bytes)))
            },
            EncodeState::Encoding(bytes) => {
                if bytes.len() == 0 {
                    proof {
                        assert(bytes@ =~= Seq::<u8>::empty());
                        assert(seq![END_BYTE] + Seq::<u8>::empty() =~= escape_all(bytes@) + seq![END_BYTE]);
                    }
                    (END_BYTE, None)
                } else {
                    let first = bytes[0];
                    let (_, rest) = bytes.split_at(1);
                    proof {
                        assert(rest@ =~= bytes@.drop_first());
                    }
                    if first == START_BYTE || first == END_BYTE || first == ESCAPE_BYTE {
                        proof {
                            assert(seq![ESCAPE_BYTE] + (seq![0xFFu8 ^ first] + escape_all(rest@) + seq![END_BYTE])
                                =~= escape_all(bytes@) + seq![END_BYTE]);
                        }
                        (ESCAPE_BYTE, Some(EncodeState::EscapedCharacter(first, rest)))
                    } else {
                        proof {
                            assert(seq![first] + (escape_all(rest@) + seq![END_BYTE])
                                =~= escape_all(bytes@) + seq![END_BYTE]);
                        }
                        (first, Some(EncodeState::Encoding(rest)))
                    }
                }
            },
            EncodeState::EscapedCharacter(character, bytes) => {
                proof {
                    assert(seq![0xFFu8 ^ character] + (escape_all(bytes@) + seq![END_BYTE])
                        =~= self.pending());
                }
                (0xFF ^ character, Some(EncodeState::Encoding(bytes)))
            },
        }
    }
}

/// What remains to be emitted after a step: nothing once encoding is over.
pub open spec fn pending_of(s: Option<EncodeState>) -> Seq<u8> {
    match s {
        Some(state) => state.pending(),
        None => Seq::empty(),
    }
}

/// Encodes `bytes` as one complete frame.
pub fn encode_iter(bytes: &[u8]) -> (r: Vec<u8>)
    ensures
        r@ == frame(bytes@),
{
    let mut out: Vec<u8> = Vec::new();
    let mut state: Option<EncodeState> = Some(EncodeState::Begin(bytes));
    loop
        invariant
            out@ + pending_of(state) == frame(bytes@),
        ensures
            out@ == frame(bytes@),
        decreases pending_of(state).len(),
    {
        match state {
            None => {
                proof {
                    assert(out@ + pending_of(state) =~= out@);
                }
                break;
            },
            Some(s) => {
                let (b, following) = s.next();
                proof {
                    assert(out@.push(b) + pending_of(following) =~= out@ + (seq![b] + pending_of(following)));
                }
                out.push(b);
                state = following;
            },
        }
    }
    out
}

/// Where the decoder stands between two bytes.
#[derive(Copy, Clone, Debug, PartialEq, Eq, Structural)]
pub enum ReaderState {
    WaitingForStart,
    InsideMessage,
    InsideMessageEscaping,
}

/// Why a frame was dropped, or why decoding stopped.
#[derive(Copy, Clone, Debug, PartialEq, Eq, Structural)]
pub enum DecoderError {
    /// The byte source has no more bytes.
    EndOfInput,
    /// The payload does not fit in the message buffer.
    BufferTooSmall,
    /// The byte after an `ESCAPE` (carried here) does not stand for a control byte.
    InvalidEscape(u8),
}

/// What one byte of input produced, in the model: nothing yet (`Ok(None)`),
/// a complete payload (`Ok(Some(..))`) or a dropped frame (`Err(..)`).
pub type Event = Result<Option<Seq<u8>>, DecoderError>;

/// Appends `b` to the message being assembled, or drops the message when the
/// buffer of `cap` bytes is full.
pub open spec fn store_step(partial: Seq<u8>, cap: nat, b: u8) -> (ReaderState, Seq<u8>, Event) {
    if partial.len() < cap {
        (ReaderState::InsideMessage, partial.push(b), Ok(None))
    } else {
        (ReaderState::WaitingForStart, Seq::empty(), Err(DecoderError::BufferTooSmall))
    }
}

/// The decoder's transition on one byte: new state, new partial message, and
/// what the byte produced.
pub open spec fn step(st: ReaderState, partial: Seq<u8>, cap: nat, b: u8) -> (
    ReaderState,
    Seq<u8>,
    Event,
) {
    if b == START_BYTE {
        (ReaderState::InsideMessage, Seq::empty(), Ok(None))
    } else {
        match st {
            ReaderState::WaitingForStart => (st, partial, Ok(None)),
            ReaderState::InsideMessage => {
                if b == END_BYTE {
                    (ReaderState::WaitingForStart, Seq::empty(), Ok(Some(partial)))
                } else if b == ESCAPE_BYTE {
                    (ReaderState::InsideMessageEscaping, partial, Ok(None))
                } else {
                    store_step(partial, cap, b)
                }
            },
            ReaderState::InsideMessageEscaping => {
                if b != END_BYTE && b != ESCAPE_BYTE && is_control(0xFFu8 ^ b) {
                    store_step(partial, cap, 0xFFu8 ^ b)
                } else {
                    (ReaderState::WaitingForStart, Seq::empty(), Err(DecoderError::InvalidEscape(b)))
                }
            },
        }
    }
}

/// Feeds every byte of `input`, in order: the final state and partial message,
/// and the event of each byte.
pub open spec fn run(st: ReaderState, partial: Seq<u8>, cap: nat, input: Seq<u8>) -> (
    ReaderState,
    Seq<u8>,
    Seq<Event>,
)
    decreases input.len(),
{
    if input.len() == 0 {
        (st, partial, Seq::empty())
    } else {
        let (s1, p1, e) = step(st, partial, cap, input[0]);
        let (s2, p2, es) = run(s1, p1, cap, input.drop_first());
        (s2, p2, seq![e] + es)
    }
}

/// Feeds bytes of `input` until one of them produces a message or an error:
/// how many bytes were taken, the state and partial message after them, and
/// their event (`EndOfInput` when `input` ran out first).
pub open spec fn first_event(st: ReaderState, partial: Seq<u8>, cap: nat, input: Seq<u8>) -> (
    nat,
    ReaderState,
    Seq<u8>,
    Event,
)
    decreases input.len(),
{
    if input.len() == 0 {
        (0, st, partial, Err(DecoderError::EndOfInput))
    } else {
        let (s1, p1, e) = step(st, partial, cap, input[0]);
        if e == Ok::<Option<Seq<u8>>, DecoderError>(None) {
            let (n, s2, p2, e2) = first_event(s1, p1, cap, input.drop_first());
            (n + 1, s2, p2, e2)
        } else {
            (1, s1, p1, e)
        }
    }
}

/// The payloads among `events`, in order.
pub open spec fn messages(events: Seq<Event>) -> Seq<Seq<u8>>
    decreases events.len(),
{
    if events.len() == 0 {
        Seq::empty()
    } else {
        match events[0] {
            Ok(Some(m)) => seq![m] + messages(events.drop_first()),
            _ => messages(events.drop_first()),
        }
    }
}

/// The executable result `r` reports the model event `e`, where a payload is
/// handed over as its length, to be read from the start of `contents`.
pub open spec fn reports(r: Result<Option<usize>, DecoderError>, e: Event, contents: Seq<u8>) -> bool {
    match e {
        Ok(None) => r == Ok::<Option<usize>, DecoderError>(None),
        Ok(Some(m)) => r == Ok::<Option<usize>, DecoderError>(Some(m.len() as usize)) && m.len()
            <= contents.len() && contents.subrange(0, m.len() as int) == m,
        Err(err) => r == Err::<Option<usize>, DecoderError>(err),
    }
}

/// `reports` for a call that only returns once something happened: a payload
/// (as its length) or an error.
pub open spec fn reports_final(r: Result<usize, DecoderError>, e: Event, contents: Seq<u8>) -> bool {
    match e {
        Ok(None) => false,
        Ok(Some(m)) => r == Ok::<usize, DecoderError>(m.len() as usize) && m.len() <= contents.len()
            && contents.subrange(0, m.len() as int) == m,
        Err(err) => r == Err::<usize, DecoderError>(err),
    }
}

/// Incremental frame decoder over a message buffer that it owns; the buffer's
/// length is the largest payload it accepts.
pub struct Decoder {
    state: ReaderState,
    buffer: Vec<u8>,
    cursor: usize,
}

impl Decoder {
    /// The state of the transition table.
    pub closed spec fn reader_state(&self) -> ReaderState {
        self.state
    }

    /// The de-escaped bytes of the message being assembled.
    pub closed spec fn partial(&self) -> Seq<u8> {
        self.buffer@.subrange(0, self.cursor as int)
    }

    /// The whole message buffer.
    pub closed spec fn contents(&self) -> Seq<u8> {
        self.buffer@
    }

    /// The largest payload that fits.
    pub open spec fn capacity(&self) -> nat {
        self.contents().len()
    }

    /// The cursor stays in the buffer, and is at its start between frames.
    pub closed spec fn wf(&self) -> bool {
        &&& self.cursor <= self.buffer.len()
        &&& self.state == ReaderState::WaitingForStart ==> self.cursor == 0
    }

    /// A decoder waiting for its first frame, which assembles messages in `buffer`.
    pub fn new(buffer: Vec<u8>) -> (r: Decoder)
        ensures
            r.wf(),
            r.reader_state() == ReaderState::WaitingForStart,
            r.partial() == Seq::<u8>::empty(),
            r.contents() == buffer@,
    {
        Decoder { state: ReaderState::WaitingForStart, buffer, cursor: 0 }
    }

    /// The largest payload that fits.
    pub fn capacity_len(&self) -> (r: usize)
        ensures
            r == self.capacity(),
    {
        self.buffer.len()
    }

    /// The first `len` bytes of the message buffer: after `ingest` reported a
    /// message of length `len`, that message.
    pub fn message(&self, len: usize) -> (r: &[u8])
        requires
            len <= self.capacity(),
        ensures
            r@ == self.contents().subrange(0, len as int),
    {
        vstd::slice::slice_subrange(self.buffer.as_slice(), 0, len)
    }

    fn reset(&mut self)
        requires
            old(self).wf(),
        ensures
            final(self).wf(),
            final(self).reader_state() == ReaderState::WaitingForStart,
            final(self).partial() == Seq::<u8>::empty(),
            final(self).contents() == old(self).contents(),
    {
        self.state = ReaderState::WaitingForStart;
        self.cursor = 0;
    }

    fn store(&mut self, b: u8) -> (r: Result<Option<usize>, DecoderError>)
        requires
            old(self).wf(),
            old(self).reader_state() != ReaderState::WaitingForStart,
        ensures
            final(self).wf(),
            final(self).capacity() == old(self).capacity(),
            ({
                let (s, p, e) = store_step(old(self).partial(), old(self).capacity(), b);
                &&& final(self).reader_state() == s
                &&& final(self).partial() == p
                &&& reports(r, e, final(self).contents())
            }),
    {
        if self.cursor < self.buffer.len() {
            self.buffer.set(self.cursor, b);
            self.cursor = self.cursor + 1;
            self.state = ReaderState::InsideMessage;
            proof {
                assert(self.partial() =~= old(self).partial().push(b));
            }
            Ok(None)
        } else {
            self.reset();
            Err(DecoderError::BufferTooSmall)
        }
    }

    /// Takes one byte off the wire. A complete message is reported as its
    /// length; its bytes are then at the start of the buffer (see `message`).
    /// The buffer is never written past its length, and its length never
    /// changes.
    pub fn ingest(&mut self, byte: u8) -> (r: Result<Option<usize>, DecoderError>)
        requires
            old(self).wf(),
        ensures
            final(self).wf(),
            final(self).capacity() == old(self).capacity(),
            ({
                let (s, p, e) = step(
                    old(self).reader_state(),
                    old(self).partial(),
                    old(self).capacity(),
                    byte,
                );
                &&& final(self).reader_state() == s
                &&& final(self).partial() == p
                &&& reports(r, e, final(self).contents())
            }),
    {
        if byte == START_BYTE {
            self.state = ReaderState::InsideMessage;
            self.cursor = 0;
            proof {
                assert(self.partial() =~= Seq::<u8>::empty());
            }
            return Ok(None);
        }
        match self.state {
            ReaderState::WaitingForStart => Ok(None),
            ReaderState::InsideMessage => {
                if byte == END_BYTE {
                    let len = self.cursor;
                    self.reset();
                    Ok(Some(len))
                } else if byte == ESCAPE_BYTE {
                    self.state = ReaderState::InsideMessageEscaping;
                    Ok(None)
                } else {
                    self.store(byte)
                }
            },
            ReaderState::InsideMessageEscaping => {
                let original = 0xFF ^ byte;
                if byte != END_BYTE && byte != ESCAPE_BYTE && (original == START_BYTE
                    || original == END_BYTE || original == ESCAPE_BYTE) {
                    self.store(original)
                } else {
                    self.reset();
                    Err(DecoderError::InvalidEscape(byte))
                }
            },
        }
    }
}

/// A source of received bytes, handed out one at a time.
pub struct ByteSource {
    bytes: Vec<u8>,
    position: usize,
}

impl ByteSource {
    /// The bytes not yet read, in order.
    pub closed spec fn remaining(&self) -> Seq<u8> {
        self.bytes@.subrange(self.position as int, self.bytes@.len() as int)
    }

    /// The read position stays within the bytes.
    pub closed spec fn wf(&self) -> bool {
        self.position <= self.bytes.len()
    }

    /// A source that yields `bytes` in order.
    pub fn new(bytes: Vec<u8>) -> (r: ByteSource)
        ensures
            r.wf(),
            r.remaining() == bytes@,
    {
        let r = ByteSource { bytes, position: 0 };
        proof {
            assert(r.remaining() =~= r.bytes@);
        }
        r
    }

    /// The next byte, or `None` once every byte has been read.
    pub fn read_byte(&mut self) -> (r: Option<u8>)
        requires
            old(self).wf(),
        ensures
            final(self).wf(),
            old(self).remaining().len() == 0 ==> r == None::<u8> && final(self).remaining()
                == old(self).remaining(),
            old(self).remaining().len() > 0 ==> r == Some(old(self).remaining()[0])
                && final(self).remaining() == old(self).remaining().drop_first(),
    {
        if self.position < self.bytes.len() {
            let b = self.bytes[self.position];
            self.position = self.position + 1;
            proof {
                assert(self.remaining() =~= old(self).remaining().drop_first());
            }
            Some(b)
        } else {
            None
        }
    }
}

/// Reads bytes from `reader` into `decoder` until a message is complete, a
/// frame is dropped, or the bytes run out. A complete message is returned as
/// its length; its bytes are at the start of the decoder's buffer. The bytes
/// after the one that ended the call stay in `reader` for the next call.
pub fn from_reader(reader: &mut ByteSource, decoder: &mut Decoder) -> (r: Result<
    usize,
    DecoderError,
>)
    requires
        old(reader).wf(),
        old(decoder).wf(),
    ensures
        final(reader).wf(),
        final(decoder).wf(),
        final(decoder).capacity() == old(decoder).capacity(),
        ({
            let (n, s, p, e) = first_event(
                old(decoder).reader_state(),
                old(decoder).partial(),
                old(decoder).capacity(),
                old(reader).remaining(),
            );
            &&& final(reader).remaining() == old(reader).remaining().subrange(
                n as int,
                old(reader).remaining().len() as int,
            )
            &&& final(decoder).reader_state() == s
            &&& final(decoder).partial() == p
            &&& reports_final(r, e, final(decoder).contents())
        }),
{
    let ghost input = reader.remaining();
    let ghost cap = decoder.capacity();
    let ghost target = first_event(decoder.reader_state(), decoder.partial(), cap, input);
    loop
        invariant
            reader.wf(),
            decoder.wf(),
            decoder.capacity() == cap,
            cap == old(decoder).capacity(),
            input == old(reader).remaining(),
            target == first_event(old(decoder).reader_state(), old(decoder).partial(), cap, input),
            input.len() >= reader.remaining().len(),
            reader.remaining() == input.subrange(
                input.len() - reader.remaining().len(),
                input.len() as int,
            ),
            ({
                let (n, s, p, e) = first_event(
                    decoder.reader_state(),
                    decoder.partial(),
                    cap,
                    reader.remaining(),
                );
                target == ((n + input.len() - reader.remaining().len()) as nat, s, p, e)
            }),
        decreases reader.remaining().len(),
    {
        match reader.read_byte() {
            None => {
                proof {
                    assert(input.subrange(input.len() as int, input.len() as int) =~= reader.remaining());
                }
                return Err(DecoderError::EndOfInput);
            },
            Some(b) => {
                let r = decoder.ingest(b);
                proof {
                    assert(reader.remaining() =~= input.subrange(
                        input.len() - reader.remaining().len(),
                        input.len() as int,
                    ));
                }
                proof {
                    if r != Ok::<Option<usize>, DecoderError>(None) {
                        assert(reader.remaining() =~= input.subrange(
                            target.0 as int,
                            input.len() as int,
                        ));
                    }
                }
                match r {
                    Ok(None) => {},
                    Ok(Some(len)) => {
                        return Ok(len);
                    },
                    Err(e) => {
                        return Err(e);
                    },
                }
            },
        }
    }
}

} // verus!
