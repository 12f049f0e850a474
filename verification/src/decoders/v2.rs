use crate::decoders::{lemma_dec_int_bytes, no_crlf, wire_ok};
use crate::numeric::{
    lemma_parse_of_format, parse_isize, spec_dec_int, spec_dec_nat, spec_parse_isize,
};
use crate::protocol::{
    lemma_encode_items_first, spec_encode, spec_encode_items, DataType, ValueModel, CR, LF,
    TAG_ARRAY, TAG_BULK, TAG_ERROR, TAG_INTEGER, TAG_SIMPLE,
};
use std::collections::VecDeque;
use vstd::prelude::*;

verus! {

/// Signals of the streaming decoder that are not parse failures: a stray
/// byte between values, and the clean end of the byte source.
#[derive(Debug, PartialEq, Eq)]
pub enum ParseError {
    StreamIdle,
    StreamClosed,
}

impl ParseError {
    /// The message that describes this signal.
    pub fn message(&self) -> (r: &'static str) {
        match self {
            ParseError::StreamIdle => "stream idle",
            ParseError::StreamClosed => "closed stream",
        }
    }
}

/// Fatal failures of the streaming decoder: the connection's decode
/// sequence cannot continue past them.
#[derive(Debug, PartialEq, Eq)]
pub enum DecodeError {
    /// A size or integer line that is not a well-formed number, or a CR
    /// inside such a line.
    InvalidInteger,
    /// A bulk-string length below the null sentinel `-1`.
    InvalidBulkStringLength,
    /// A bulk-string payload not closed by an exact CRLF.
    BadStringTermination,
    /// A negative array count.
    InvalidArraySize,
}

impl DecodeError {
    /// The message that describes this error.
    pub fn message(&self) -> (r: &'static str) {
        match self {
            DecodeError::InvalidInteger => "error parsing integer",
            DecodeError::InvalidBulkStringLength => "invalid bulk string length",
            DecodeError::BadStringTermination => "error parsing bulk string",
            DecodeError::InvalidArraySize => "invalid array size",
        }
    }
}

/// What the machine expects from the next byte. There is no terminal
/// state: after each completed value the machine returns to
/// `ExpectingDataTypeIdent`.
#[derive(Debug, PartialEq, Eq, Clone, Copy)]
pub enum State {
    ExpectingDataTypeIdent,
    ExpectingSimpleStringChar,
    ExpectingInteger,
    ExpectingBulkStringSize,
    ExpectingBulkStringChar(usize),
    ExpectingErrorData,
    ExpectingArraySize,
}

/// The scalar kinds a finished parsing buffer can be committed as.
#[derive(Debug, PartialEq, Eq, Clone, Copy)]
pub enum Type {
    SimpleString,
    Integer,
    BulkString,
    NullBulkString,
    Error,
}

impl Type {
    /// The value that a finished buffer denotes under this kind; integer
    /// buffers that do not parse are the one failure.
    pub open spec fn spec_as_datatype(self, buf: Seq<u8>) -> Result<ValueModel, DecodeError> {
        match self {
            Type::SimpleString => Ok(ValueModel::SimpleString { string: buf }),
            Type::Integer => match spec_parse_isize(buf) {
                Some(n) => Ok(ValueModel::Integer { number: n }),
                None => Err(DecodeError::InvalidInteger),
            },
            Type::BulkString => Ok(ValueModel::BulkString { string: buf }),
            Type::NullBulkString => Ok(ValueModel::NullBulkString),
            Type::Error => Ok(ValueModel::Error { type_: Seq::empty(), error: buf }),
        }
    }

    /// Converts a finished parsing buffer into the value of this kind.
    pub fn as_datatype(&self, buf: &Vec<u8>) -> (r: Result<DataType, DecodeError>)
        ensures
            match r {
                Ok(v) => self.spec_as_datatype(buf@) == Ok::<ValueModel, DecodeError>(v@),
                Err(e) => self.spec_as_datatype(buf@) == Err::<ValueModel, DecodeError>(e),
            },
    {
        match self {
            Type::SimpleString => {
                let payload = buf.clone();
                proof {
                    assert(payload@ =~= buf@);
                }
                Ok(DataType::SimpleString { string: payload })
            },
            Type::Integer => match parse_isize(buf.as_slice()) {
                Some(n) => Ok(DataType::Integer { number: n }),
                None => Err(DecodeError::InvalidInteger),
            },
            Type::BulkString => {
                let payload = buf.clone();
                proof {
                    assert(payload@ =~= buf@);
                }
                Ok(DataType::BulkString { string: payload })
            },
            Type::NullBulkString => Ok(DataType::NullBulkString),
            Type::Error => {
                let payload = buf.clone();
                proof {
                    assert(payload@ =~= buf@);
                }
                Ok(DataType::Error { type_: Vec::new(), error: payload })
            },
        }
    }
}

/// The mathematical state of the streaming machine: the state tag, the
/// scalar parsing buffer, the stack of open array frames (each the items
/// collected so far and the count still missing), the pending-CRLF flag,
/// and the queue of completed top-level values.
#[verifier::ext_equal]
pub struct MachineModel {
    pub state: State,
    pub buffer: Seq<u8>,
    pub frames: Seq<(Seq<ValueModel>, nat)>,
    pub pending_crlf: bool,
    pub parsed: Seq<ValueModel>,
}

/// The machine as first built: expecting a type tag, everything empty.
pub open spec fn initial_machine() -> MachineModel {
    MachineModel {
        state: State::ExpectingDataTypeIdent,
        buffer: Seq::empty(),
        frames: Seq::empty(),
        pending_crlf: false,
        parsed: Seq::empty(),
    }
}

/// Lets a finished value bubble up the open-array stack: while the top
/// frame misses nothing more, it is popped, wrapped as an array, and
/// handed to the frame below; a value finished with no open frame joins
/// the output queue.
pub open spec fn spec_bubble(frames: Seq<(Seq<ValueModel>, nat)>, parsed: Seq<ValueModel>) -> (
    Seq<(Seq<ValueModel>, nat)>,
    Seq<ValueModel>,
)
    decreases frames.len(),
{
    if frames.len() == 0 {
        (frames, parsed)
    } else if frames.last().1 > 0 {
        (frames, parsed)
    } else {
        let arr = ValueModel::Array { items: frames.last().0 };
        let rest = frames.drop_last();
        if rest.len() == 0 {
            (rest, parsed.push(arr))
        } else {
            spec_bubble(
                rest.drop_last().push((rest.last().0.push(arr), (rest.last().1 - 1) as nat)),
                parsed,
            )
        }
    }
}

/// Commits a finished value: into the top open frame, whose remaining
/// count drops by one and which may bubble closed, or straight to the
/// output queue when no array is open.
pub open spec fn spec_commit(
    frames: Seq<(Seq<ValueModel>, nat)>,
    parsed: Seq<ValueModel>,
    v: ValueModel,
) -> (Seq<(Seq<ValueModel>, nat)>, Seq<ValueModel>) {
    if frames.len() == 0 {
        (frames, parsed.push(v))
    } else {
        spec_bubble(
            frames.drop_last().push((frames.last().0.push(v), (frames.last().1 - 1) as nat)),
            parsed,
        )
    }
}

/// One byte of work in a scalar state (`kind` names which): content bytes
/// accumulate; a CR pends; a pending CR before an LF closes the scalar
/// and commits it; a pending CR before another CR is committed as
/// literal content with the flag kept; a pending CR before anything else
/// is committed as literal content together with that byte.
pub open spec fn spec_scalar_step(m: MachineModel, b: u8, kind: Type) -> Result<
    MachineModel,
    DecodeError,
> {
    if m.pending_crlf {
        if b == LF {
            match kind.spec_as_datatype(m.buffer) {
                Err(e) => Err(e),
                Ok(v) => {
                    let (f, p) = spec_commit(m.frames, m.parsed, v);
                    Ok(
                        MachineModel {
                            state: State::ExpectingDataTypeIdent,
                            buffer: Seq::empty(),
                            frames: f,
                            pending_crlf: false,
                            parsed: p,
                        },
                    )
                },
            }
        } else if b == CR {
            Ok(MachineModel { buffer: m.buffer.push(CR), ..m })
        } else {
            Ok(MachineModel { buffer: m.buffer.push(CR).push(b), pending_crlf: false, ..m })
        }
    } else if b == CR {
        Ok(MachineModel { pending_crlf: true, ..m })
    } else {
        Ok(MachineModel { buffer: m.buffer.push(b), ..m })
    }
}

/// One byte of work while reading a bulk-string size line.
pub open spec fn spec_bulk_size_step(m: MachineModel, b: u8) -> Result<MachineModel, DecodeError> {
    if m.pending_crlf {
        if b == LF {
            match spec_parse_isize(m.buffer) {
                None => Err(DecodeError::InvalidInteger),
                Some(n) => if n == -1 {
                    let (f, p) = spec_commit(m.frames, m.parsed, ValueModel::NullBulkString);
                    Ok(
                        MachineModel {
                            state: State::ExpectingDataTypeIdent,
                            buffer: Seq::empty(),
                            frames: f,
                            pending_crlf: false,
                            parsed: p,
                        },
                    )
                } else if n < -1 {
                    Err(DecodeError::InvalidBulkStringLength)
                } else {
                    Ok(
                        MachineModel {
                            state: State::ExpectingBulkStringChar(n as usize),
                            buffer: Seq::empty(),
                            pending_crlf: false,
                            ..m
                        },
                    )
                },
            }
        } else {
            Err(DecodeError::InvalidInteger)
        }
    } else if b == CR {
        Ok(MachineModel { pending_crlf: true, ..m })
    } else {
        Ok(MachineModel { buffer: m.buffer.push(b), ..m })
    }
}

/// One byte of work while reading a bulk-string payload or its
/// terminator: with bytes remaining every byte (CR and LF included) is
/// payload; at the end only an exact CRLF is accepted.
pub open spec fn spec_bulk_char_step(m: MachineModel, b: u8, remaining: usize) -> Result<
    MachineModel,
    DecodeError,
> {
    if remaining > 0 {
        Ok(
            MachineModel {
                state: State::ExpectingBulkStringChar((remaining - 1) as usize),
                buffer: m.buffer.push(b),
                ..m
            },
        )
    } else if m.pending_crlf {
        if b == LF {
            let (f, p) = spec_commit(
                m.frames,
                m.parsed,
                ValueModel::BulkString { string: m.buffer },
            );
            Ok(
                MachineModel {
                    state: State::ExpectingDataTypeIdent,
                    buffer: Seq::empty(),
                    frames: f,
                    pending_crlf: false,
                    parsed: p,
                },
            )
        } else {
            Err(DecodeError::BadStringTermination)
        }
    } else if b == CR {
        Ok(MachineModel { pending_crlf: true, ..m })
    } else {
        Err(DecodeError::BadStringTermination)
    }
}

/// One byte of work while reading an array count line: the count opens a
/// new frame, a zero count completes an empty array at once, and a
/// negative count is malformed.
pub open spec fn spec_array_size_step(m: MachineModel, b: u8) -> Result<MachineModel, DecodeError> {
    if m.pending_crlf {
        if b == LF {
            match spec_parse_isize(m.buffer) {
                None => Err(DecodeError::InvalidInteger),
                Some(n) => if n < 0 {
                    Err(DecodeError::InvalidArraySize)
                } else if n == 0 {
                    let (f, p) = spec_commit(
                        m.frames,
                        m.parsed,
                        ValueModel::Array { items: Seq::empty() },
                    );
                    Ok(
                        MachineModel {
                            state: State::ExpectingDataTypeIdent,
                            buffer: Seq::empty(),
                            frames: f,
                            pending_crlf: false,
                            parsed: p,
                        },
                    )
                } else {
                    Ok(
                        MachineModel {
                            state: State::ExpectingDataTypeIdent,
                            buffer: Seq::empty(),
                            frames: m.frames.push((Seq::empty(), n as nat)),
                            pending_crlf: false,
                            parsed: m.parsed,
                        },
                    )
                },
            }
        } else {
            Err(DecodeError::InvalidInteger)
        }
    } else if b == CR {
        Ok(MachineModel { pending_crlf: true, ..m })
    } else {
        Ok(MachineModel { buffer: m.buffer.push(b), ..m })
    }
}

/// The state that a type tag byte selects; a byte that is no tag keeps
/// the machine waiting for one.
pub open spec fn spec_state_for_tag(b: u8) -> State {
    if b == TAG_SIMPLE {
        State::ExpectingSimpleStringChar
    } else if b == TAG_INTEGER {
        State::ExpectingInteger
    } else if b == TAG_BULK {
        State::ExpectingBulkStringSize
    } else if b == TAG_ERROR {
        State::ExpectingErrorData
    } else if b == TAG_ARRAY {
        State::ExpectingArraySize
    } else {
        State::ExpectingDataTypeIdent
    }
}

/// One byte of work: what the machine does with `b` depends only on its
/// state. In `ExpectingDataTypeIdent` a tag byte selects the next state
/// and any other byte is dropped (the soft idle skip).
pub open spec fn spec_step(m: MachineModel, b: u8) -> Result<MachineModel, DecodeError> {
    match m.state {
        State::ExpectingDataTypeIdent => Ok(MachineModel { state: spec_state_for_tag(b), ..m }),
        State::ExpectingSimpleStringChar => spec_scalar_step(m, b, Type::SimpleString),
        State::ExpectingInteger => spec_scalar_step(m, b, Type::Integer),
        State::ExpectingErrorData => spec_scalar_step(m, b, Type::Error),
        State::ExpectingBulkStringSize => spec_bulk_size_step(m, b),
        State::ExpectingBulkStringChar(remaining) => spec_bulk_char_step(m, b, remaining),
        State::ExpectingArraySize => spec_array_size_step(m, b),
    }
}

/// The machine run over a whole byte sequence, one byte at a time.
pub open spec fn spec_run(m: MachineModel, s: Seq<u8>) -> Result<MachineModel, DecodeError>
    decreases s.len(),
{
    if s.len() == 0 {
        Ok(m)
    } else {
        match spec_step(m, s.first()) {
            Ok(m2) => spec_run(m2, s.drop_first()),
            Err(e) => Err(e),
        }
    }
}

/// Feeding a byte sequence is the same as feeding any split of it in
/// two, in order: the machine's behaviour does not depend on how the
/// input is segmented into reads.
pub proof fn lemma_run_append(m: MachineModel, a: Seq<u8>, b: Seq<u8>)
    ensures
        spec_run(m, a + b) == (match spec_run(m, a) {
            Ok(m2) => spec_run(m2, b),
            Err(e) => Err(e),
        }),
    decreases a.len(),
{
    if a.len() == 0 {
        assert(a + b =~= b);
    } else {
        assert((a + b).first() == a.first());
        assert((a + b).drop_first() =~= a.drop_first() + b);
        match spec_step(m, a.first()) {
            Ok(m2) => {
                lemma_run_append(m2, a.drop_first(), b);
            },
            Err(_) => {},
        }
    }
}

/// Feeding the bytes one at a time yields exactly the run over the whole
/// sequence: one step per byte, in order.
pub proof fn lemma_run_one_byte_at_a_time(m: MachineModel, s: Seq<u8>, i: int)
    requires
        0 <= i < s.len(),
        spec_run(m, s.take(i)) matches Ok(_),
    ensures
        spec_run(m, s.take(i + 1)) == (match spec_run(m, s.take(i)) {
            Ok(m2) => spec_step(m2, s[i]),
            Err(e) => Err(e),
        }),
{
    assert(s.take(i + 1) =~= s.take(i) + seq![s[i]]);
    lemma_run_append(m, s.take(i), seq![s[i]]);
    match spec_run(m, s.take(i)) {
        Ok(m2) => {
            assert(seq![s[i]].first() == s[i]);
            assert(seq![s[i]].drop_first() =~= Seq::<u8>::empty());
            match spec_step(m2, s[i]) {
                Ok(m3) => {
                    assert(spec_run(m3, Seq::<u8>::empty()) == Ok::<MachineModel, DecodeError>(m3));
                },
                Err(_) => {},
            }
        },
        Err(_) => {},
    }
}

/// The nesting of arrays that closes around `v` when every open frame
/// waits for exactly one more value: innermost frame first.
pub open spec fn nest_arrays(frames: Seq<(Seq<ValueModel>, nat)>, v: ValueModel) -> ValueModel
    decreases frames.len(),
{
    if frames.len() == 0 {
        v
    } else {
        nest_arrays(frames.drop_last(), ValueModel::Array { items: frames.last().0.push(v) })
    }
}

/// Array closure bubbling: when every open frame waits for exactly one
/// more value, committing a single value closes them all in one step,
/// and the fully nested array joins the output queue.
pub proof fn lemma_array_closure_bubbling(
    frames: Seq<(Seq<ValueModel>, nat)>,
    parsed: Seq<ValueModel>,
    v: ValueModel,
)
    requires
        forall|i: int| 0 <= i < frames.len() ==> (#[trigger] frames[i]).1 == 1,
    ensures
        spec_commit(frames, parsed, v) == (
            Seq::<(Seq<ValueModel>, nat)>::empty(),
            parsed.push(nest_arrays(frames, v)),
        ),
    decreases frames.len(),
{
    if frames.len() == 0 {
        assert(spec_commit(frames, parsed, v) == (frames, parsed.push(v)));
        assert(frames =~= Seq::<(Seq<ValueModel>, nat)>::empty());
    } else {
        let top = frames.last();
        let stacked = frames.drop_last().push((top.0.push(v), 0nat));
        assert(spec_commit(frames, parsed, v) == spec_bubble(stacked, parsed));
        let arr = ValueModel::Array { items: top.0.push(v) };
        let rest = stacked.drop_last();
        assert(rest =~= frames.drop_last());
        if rest.len() == 0 {
            assert(spec_bubble(stacked, parsed) == (rest, parsed.push(arr)));
            assert(nest_arrays(frames, v) == arr);
        } else {
            let parent = rest.last();
            assert(parent == frames[frames.len() - 2]);
            assert(parent.1 == 1);
            let next = rest.drop_last().push((parent.0.push(arr), 0nat));
            assert(spec_bubble(stacked, parsed) == spec_bubble(next, parsed));
            lemma_array_closure_bubbling(rest, parsed, arr);
            assert(spec_commit(rest, parsed, arr) == spec_bubble(next, parsed));
            assert(nest_arrays(rest, arr) == nest_arrays(frames, v));
        }
    }
}

/// Unfolds one step off the front of a run.
proof fn lemma_run_step_front(m: MachineModel, s: Seq<u8>)
    requires
        s.len() > 0,
    ensures
        spec_run(m, s) == (match spec_step(m, s.first()) {
            Ok(m1) => spec_run(m1, s.drop_first()),
            Err(e) => Err(e),
        }),
{
}

/// The scalar state in which a buffer commits as the given kind.
pub open spec fn scalar_state_of(kind: Type) -> State {
    match kind {
        Type::SimpleString => State::ExpectingSimpleStringChar,
        Type::Integer => State::ExpectingInteger,
        Type::Error => State::ExpectingErrorData,
        Type::BulkString => State::ExpectingBulkStringChar(0),
        Type::NullBulkString => State::ExpectingDataTypeIdent,
    }
}

/// Running a scalar state over CRLF-free content closed by a CRLF commits
/// exactly the accumulated content as a value of that state's kind. A
/// scan already pending commits its CR as literal content first.
proof fn lemma_run_scalar(m: MachineModel, content: Seq<u8>, kind: Type)
    requires
        kind == Type::SimpleString || kind == Type::Integer || kind == Type::Error,
        m.state == scalar_state_of(kind),
        no_crlf(content),
        m.pending_crlf ==> (content.len() == 0 || content.first() != LF),
    ensures
        spec_run(m, content + seq![CR, LF]) == (match kind.spec_as_datatype(
            m.buffer + (if m.pending_crlf {
                seq![CR]
            } else {
                Seq::empty()
            }) + content,
        ) {
            Ok(v) => {
                let (f, p) = spec_commit(m.frames, m.parsed, v);
                Ok::<MachineModel, DecodeError>(
                    MachineModel {
                        state: State::ExpectingDataTypeIdent,
                        buffer: Seq::empty(),
                        frames: f,
                        pending_crlf: false,
                        parsed: p,
                    },
                )
            },
            Err(e) => Err(e),
        }),
    decreases content.len(),
{
    let s = content + seq![CR, LF];
    if content.len() == 0 {
        assert(s.first() == CR);
        assert(s.drop_first() =~= seq![LF]);
        lemma_run_step_front(m, s);
        let m1 = if m.pending_crlf {
            MachineModel { buffer: m.buffer.push(CR), ..m }
        } else {
            MachineModel { pending_crlf: true, ..m }
        };
        assert(spec_step(m, CR) == Ok::<MachineModel, DecodeError>(m1));
        lemma_run_step_front(m1, seq![LF]);
        assert(seq![LF].first() == LF);
        assert(seq![LF].drop_first() =~= Seq::<u8>::empty());
        if m.pending_crlf {
            assert(m1.buffer =~= m.buffer + seq![CR] + content);
        } else {
            assert(m1.buffer =~= m.buffer + Seq::<u8>::empty() + content);
        }
        match kind.spec_as_datatype(m1.buffer) {
            Ok(v) => {
                match spec_step(m1, LF) {
                    Ok(m2) => {
                        assert(spec_run(m2, Seq::<u8>::empty()) == Ok::<
                            MachineModel,
                            DecodeError,
                        >(m2));
                    },
                    Err(_) => {},
                }
            },
            Err(_) => {},
        }
    } else {
        let c = content.first();
        let tail = content.drop_first();
        assert(s.first() == c);
        assert(s.drop_first() =~= tail + seq![CR, LF]);
        assert(forall|i: int|
            0 <= i < tail.len() - 1 ==> !(#[trigger] tail[i] == CR && tail[i + 1] == LF)) by {
            assert(forall|i: int| 0 <= i < tail.len() ==> #[trigger] tail[i] == content[i + 1]);
        }
        lemma_run_step_front(m, s);
        if m.pending_crlf {
            if c == CR {
                let m1 = MachineModel { buffer: m.buffer.push(CR), ..m };
                lemma_run_scalar(m1, tail, kind);
                assert(m1.buffer + seq![CR] + tail =~= m.buffer + seq![CR] + content);
            } else {
                let m1 = MachineModel {
                    buffer: m.buffer.push(CR).push(c),
                    pending_crlf: false,
                    ..m
                };
                lemma_run_scalar(m1, tail, kind);
                assert(m1.buffer + Seq::<u8>::empty() + tail =~= m.buffer + seq![CR] + content);
            }
        } else {
            if c == CR {
                let m1 = MachineModel { pending_crlf: true, ..m };
                lemma_run_scalar(m1, tail, kind);
                assert(m1.buffer + seq![CR] + tail =~= m.buffer + Seq::<u8>::empty() + content);
            } else {
                let m1 = MachineModel { buffer: m.buffer.push(c), ..m };
                lemma_run_scalar(m1, tail, kind);
                assert(m1.buffer + Seq::<u8>::empty() + tail =~= m.buffer + Seq::<u8>::empty()
                    + content);
            }
        }
    }
}

/// In a size-line state, CR-free and LF-free bytes only accumulate.
proof fn lemma_run_accumulate_size(m: MachineModel, content: Seq<u8>)
    requires
        m.state == State::ExpectingBulkStringSize || m.state == State::ExpectingArraySize,
        !m.pending_crlf,
        forall|i: int| 0 <= i < content.len() ==> #[trigger] content[i] != CR,
    ensures
        spec_run(m, content) == Ok::<MachineModel, DecodeError>(
            MachineModel { buffer: m.buffer + content, ..m },
        ),
    decreases content.len(),
{
    if content.len() == 0 {
        assert(MachineModel { buffer: m.buffer + content, ..m } =~~= m);
    } else {
        let c = content.first();
        let tail = content.drop_first();
        lemma_run_step_front(m, content);
        let m1 = MachineModel { buffer: m.buffer.push(c), ..m };
        assert(spec_step(m, c) == Ok::<MachineModel, DecodeError>(m1));
        lemma_run_accumulate_size(m1, tail);
        assert(m1.buffer + tail =~= m.buffer + content);
    }
}

/// Running a size-line state over a digit line closed by CRLF reaches the
/// size-step decision on the accumulated line.
proof fn lemma_run_size_line(m: MachineModel, content: Seq<u8>)
    requires
        m.state == State::ExpectingBulkStringSize || m.state == State::ExpectingArraySize,
        !m.pending_crlf,
        forall|i: int| 0 <= i < content.len() ==> #[trigger] content[i] != CR && content[i] != LF,
    ensures
        spec_run(m, content + seq![CR, LF]) == (if m.state == State::ExpectingBulkStringSize {
            spec_bulk_size_step(
                MachineModel { buffer: m.buffer + content, pending_crlf: true, ..m },
                LF,
            )
        } else {
            spec_array_size_step(
                MachineModel { buffer: m.buffer + content, pending_crlf: true, ..m },
                LF,
            )
        }),
{
    lemma_run_append(m, content, seq![CR, LF]);
    lemma_run_accumulate_size(m, content);
    let m1 = MachineModel { buffer: m.buffer + content, ..m };
    lemma_run_step_front(m1, seq![CR, LF]);
    assert(seq![CR, LF].first() == CR);
    assert(seq![CR, LF].drop_first() =~= seq![LF]);
    let m2 = MachineModel { buffer: m.buffer + content, pending_crlf: true, ..m };
    assert(spec_step(m1, CR) == Ok::<MachineModel, DecodeError>(m2));
    lemma_run_step_front(m2, seq![LF]);
    assert(seq![LF].first() == LF);
    assert(seq![LF].drop_first() =~= Seq::<u8>::empty());
    match spec_step(m2, LF) {
        Ok(m3) => {
            assert(spec_run(m3, Seq::<u8>::empty()) == Ok::<MachineModel, DecodeError>(m3));
        },
        Err(_) => {},
    }
}

/// While payload bytes remain, a bulk-string state only accumulates.
proof fn lemma_run_bulk_payload(m: MachineModel, payload: Seq<u8>, remaining: usize)
    requires
        m.state == State::ExpectingBulkStringChar(remaining),
        remaining == payload.len(),
        !m.pending_crlf,
    ensures
        spec_run(m, payload) == Ok::<MachineModel, DecodeError>(
            MachineModel {
                state: State::ExpectingBulkStringChar(0),
                buffer: m.buffer + payload,
                ..m
            },
        ),
    decreases payload.len(),
{
    if payload.len() == 0 {
        assert(MachineModel {
            state: State::ExpectingBulkStringChar(0),
            buffer: m.buffer + payload,
            ..m
        } =~~= m);
    } else {
        let c = payload.first();
        let tail = payload.drop_first();
        lemma_run_step_front(m, payload);
        let m1 = MachineModel {
            state: State::ExpectingBulkStringChar((remaining - 1) as usize),
            buffer: m.buffer.push(c),
            ..m
        };
        assert(spec_step(m, c) == Ok::<MachineModel, DecodeError>(m1));
        lemma_run_bulk_payload(m1, tail, (remaining - 1) as usize);
        assert(m1.buffer + tail =~= m.buffer + payload);
    }
}

/// Commits each value of a sequence in order, front first.
pub open spec fn spec_commit_all(
    frames: Seq<(Seq<ValueModel>, nat)>,
    parsed: Seq<ValueModel>,
    items: Seq<ValueModel>,
) -> (Seq<(Seq<ValueModel>, nat)>, Seq<ValueModel>)
    decreases items.len(),
{
    if items.len() == 0 {
        (frames, parsed)
    } else {
        let (f2, p2) = spec_commit(frames, parsed, items.first());
        spec_commit_all(f2, p2, items.drop_first())
    }
}

/// Committing exactly the values an open frame still misses is the same
/// as committing the finished array into the frames below.
proof fn lemma_commit_all_array(
    f: Seq<(Seq<ValueModel>, nat)>,
    p: Seq<ValueModel>,
    done: Seq<ValueModel>,
    items: Seq<ValueModel>,
)
    requires
        items.len() >= 1,
    ensures
        spec_commit_all(f.push((done, items.len() as nat)), p, items) == spec_commit(
            f,
            p,
            ValueModel::Array { items: done + items },
        ),
    decreases items.len(),
{
    let stacked = f.push((done, items.len() as nat));
    if items.len() == 1 {
        let v = items.first();
        assert(stacked.last() == (done, 1nat));
        assert(stacked.drop_last() =~= f);
        let bubbled_arg = f.push((done.push(v), 0nat));
        assert(spec_commit(stacked, p, v) == spec_bubble(bubbled_arg, p));
        let arr = ValueModel::Array { items: done.push(v) };
        assert(bubbled_arg.last() == (done.push(v), 0nat));
        assert(bubbled_arg.drop_last() =~= f);
        if f.len() == 0 {
            assert(spec_bubble(bubbled_arg, p) == (f, p.push(arr)));
            assert(spec_commit(f, p, arr) == (f, p.push(arr)));
        } else {
            assert(spec_bubble(bubbled_arg, p) == spec_bubble(
                f.drop_last().push((f.last().0.push(arr), (f.last().1 - 1) as nat)),
                p,
            ));
            assert(spec_commit(f, p, arr) == spec_bubble(
                f.drop_last().push((f.last().0.push(arr), (f.last().1 - 1) as nat)),
                p,
            ));
        }
        assert(done.push(v) =~= done + items);
        assert(spec_commit_all(stacked, p, items) == spec_commit(stacked, p, v)) by {
            let (f2, p2) = spec_commit(stacked, p, v);
            assert(spec_commit_all(f2, p2, items.drop_first()) == (f2, p2));
        }
    } else {
        let v = items.first();
        assert(stacked.last() == (done, items.len() as nat));
        assert(stacked.drop_last() =~= f);
        let next = f.push((done.push(v), (items.len() - 1) as nat));
        assert(spec_commit(stacked, p, v) == spec_bubble(next, p));
        assert(next.last().1 > 0);
        assert(spec_bubble(next, p) == (next, p));
        lemma_commit_all_array(f, p, done.push(v), items.drop_first());
        assert(done.push(v) + items.drop_first() =~= done + items);
    }
}

/// Round trip through the streaming machine: from a clean between-values
/// state, running the exact encoding of a faithfully representable value
/// returns to that clean state with the value committed, wherever the
/// open-array stack stood.
pub proof fn lemma_machine_decode_of_encode(m: MachineModel, v: ValueModel)
    requires
        wire_ok(v),
        m.state == State::ExpectingDataTypeIdent,
        m.buffer == Seq::<u8>::empty(),
        !m.pending_crlf,
    ensures
        spec_run(m, spec_encode(v)) == Ok::<MachineModel, DecodeError>(
            MachineModel {
                state: State::ExpectingDataTypeIdent,
                buffer: Seq::empty(),
                frames: spec_commit(m.frames, m.parsed, v).0,
                pending_crlf: false,
                parsed: spec_commit(m.frames, m.parsed, v).1,
            },
        ),
    decreases v,
{
    let s = spec_encode(v);
    lemma_run_step_front(m, s);
    match v {
        ValueModel::SimpleString { string } => {
            assert(s.first() == TAG_SIMPLE);
            let m1 = MachineModel { state: State::ExpectingSimpleStringChar, ..m };
            assert(spec_step(m, TAG_SIMPLE) == Ok::<MachineModel, DecodeError>(m1));
            assert(s.drop_first() =~= string + seq![CR, LF]);
            lemma_run_scalar(m1, string, Type::SimpleString);
            assert(m1.buffer + Seq::<u8>::empty() + string =~= string);
        },
        ValueModel::Error { type_, error } => {
            assert(s.first() == TAG_ERROR);
            let m1 = MachineModel { state: State::ExpectingErrorData, ..m };
            assert(spec_step(m, TAG_ERROR) == Ok::<MachineModel, DecodeError>(m1));
            assert(s.drop_first() =~= error + seq![CR, LF]);
            lemma_run_scalar(m1, error, Type::Error);
            assert(m1.buffer + Seq::<u8>::empty() + error =~= error);
            assert(type_ =~= Seq::<u8>::empty());
        },
        ValueModel::Integer { number } => {
            assert(s.first() == TAG_INTEGER);
            let m1 = MachineModel { state: State::ExpectingInteger, ..m };
            assert(spec_step(m, TAG_INTEGER) == Ok::<MachineModel, DecodeError>(m1));
            assert(s.drop_first() =~= spec_dec_int(number) + seq![CR, LF]);
            lemma_dec_int_bytes(number);
            lemma_run_scalar(m1, spec_dec_int(number), Type::Integer);
            assert(m1.buffer + Seq::<u8>::empty() + spec_dec_int(number) =~= spec_dec_int(number));
            lemma_parse_of_format(number);
        },
        ValueModel::NullBulkString => {
            assert(s.first() == TAG_BULK);
            let m1 = MachineModel { state: State::ExpectingBulkStringSize, ..m };
            assert(spec_step(m, TAG_BULK) == Ok::<MachineModel, DecodeError>(m1));
            let content = seq![TAG_ERROR, 49u8];
            assert(s.drop_first() =~= content + seq![CR, LF]);
            lemma_run_size_line(m1, content);
            assert(m1.buffer + content =~= content);
            assert(spec_parse_isize(content) == Some(-1int)) by {
                assert(content.drop_first() =~= seq![49u8]);
                assert(crate::numeric::all_digits(seq![49u8]));
                assert(crate::numeric::digits_val(seq![49u8]) == 1) by {
                    assert(seq![49u8].drop_last() =~= Seq::<u8>::empty());
                    assert(crate::numeric::digits_val(Seq::<u8>::empty()) == 0);
                }
            }
        },
        ValueModel::BulkString { string } => {
            assert(s.first() == TAG_BULK);
            let m1 = MachineModel { state: State::ExpectingBulkStringSize, ..m };
            assert(spec_step(m, TAG_BULK) == Ok::<MachineModel, DecodeError>(m1));
            let len = string.len() as int;
            let dec = spec_dec_nat(string.len());
            assert(dec == spec_dec_int(len));
            lemma_dec_int_bytes(len);
            assert(s.drop_first() =~= (dec + seq![CR, LF]) + (string + seq![CR, LF]));
            lemma_run_append(m1, dec + seq![CR, LF], string + seq![CR, LF]);
            lemma_run_size_line(m1, dec);
            assert(m1.buffer + dec =~= dec);
            lemma_parse_of_format(len);
            let m2 = MachineModel {
                state: State::ExpectingBulkStringChar(string.len() as usize),
                buffer: Seq::empty(),
                pending_crlf: false,
                ..m1
            };
            assert(spec_run(m1, dec + seq![CR, LF]) == Ok::<MachineModel, DecodeError>(m2));
            assert(string + seq![CR, LF] =~= string + (seq![CR] + seq![LF]));
            assert((string + seq![CR, LF]) =~= (string + seq![CR]) + seq![LF]);
            lemma_run_append(m2, string, seq![CR, LF]);
            lemma_run_bulk_payload(m2, string, string.len() as usize);
            let m3 = MachineModel {
                state: State::ExpectingBulkStringChar(0),
                buffer: string,
                ..m2
            };
            assert(m2.buffer + string =~= string);
            lemma_run_step_front(m3, seq![CR, LF]);
            assert(seq![CR, LF].first() == CR);
            assert(seq![CR, LF].drop_first() =~= seq![LF]);
            let m4 = MachineModel { pending_crlf: true, ..m3 };
            assert(spec_step(m3, CR) == Ok::<MachineModel, DecodeError>(m4));
            lemma_run_step_front(m4, seq![LF]);
            assert(seq![LF].first() == LF);
            assert(seq![LF].drop_first() =~= Seq::<u8>::empty());
            match spec_step(m4, LF) {
                Ok(m5) => {
                    assert(spec_run(m5, Seq::<u8>::empty()) == Ok::<MachineModel, DecodeError>(
                        m5,
                    ));
                },
                Err(_) => {},
            }
        },
        ValueModel::Array { items } => {
            assert(s.first() == TAG_ARRAY);
            let m1 = MachineModel { state: State::ExpectingArraySize, ..m };
            assert(spec_step(m, TAG_ARRAY) == Ok::<MachineModel, DecodeError>(m1));
            let len = items.len() as int;
            let dec = spec_dec_nat(items.len());
            assert(dec == spec_dec_int(len));
            lemma_dec_int_bytes(len);
            assert(s.drop_first() =~= (dec + seq![CR, LF]) + spec_encode_items(items));
            lemma_run_append(m1, dec + seq![CR, LF], spec_encode_items(items));
            lemma_run_size_line(m1, dec);
            assert(m1.buffer + dec =~= dec);
            lemma_parse_of_format(len);
            if items.len() == 0 {
                assert(spec_encode_items(items) =~= Seq::<u8>::empty());
                assert(items =~= Seq::<ValueModel>::empty());
            } else {
                let m2 = MachineModel {
                    state: State::ExpectingDataTypeIdent,
                    buffer: Seq::empty(),
                    frames: m1.frames.push((Seq::empty(), items.len() as nat)),
                    pending_crlf: false,
                    parsed: m1.parsed,
                };
                assert(spec_run(m1, dec + seq![CR, LF]) == Ok::<MachineModel, DecodeError>(m2));
                lemma_machine_run_items(m2, items);
                lemma_commit_all_array(m.frames, m.parsed, Seq::empty(), items);
                assert(Seq::<ValueModel>::empty() + items =~= items);
            }
        },
    }
}

/// Running the concatenated encodings of a sequence of values from a
/// clean between-values state commits them one after the other.
pub proof fn lemma_machine_run_items(m: MachineModel, items: Seq<ValueModel>)
    requires
        forall|i: int| 0 <= i < items.len() ==> wire_ok(#[trigger] items[i]),
        m.state == State::ExpectingDataTypeIdent,
        m.buffer == Seq::<u8>::empty(),
        !m.pending_crlf,
    ensures
        spec_run(m, spec_encode_items(items)) == Ok::<MachineModel, DecodeError>(
            MachineModel {
                state: State::ExpectingDataTypeIdent,
                buffer: Seq::empty(),
                frames: spec_commit_all(m.frames, m.parsed, items).0,
                pending_crlf: false,
                parsed: spec_commit_all(m.frames, m.parsed, items).1,
            },
        ),
    decreases items,
{
    if items.len() == 0 {
        assert(spec_encode_items(items) =~= Seq::<u8>::empty());
        assert(MachineModel {
            state: State::ExpectingDataTypeIdent,
            buffer: Seq::empty(),
            frames: m.frames,
            pending_crlf: false,
            parsed: m.parsed,
        } =~~= m);
    } else {
        lemma_encode_items_first(items);
        let first = items.first();
        let tail = items.drop_first();
        lemma_run_append(m, spec_encode(first), spec_encode_items(tail));
        lemma_machine_decode_of_encode(m, first);
        let (f2, p2) = spec_commit(m.frames, m.parsed, first);
        let m2 = MachineModel {
            state: State::ExpectingDataTypeIdent,
            buffer: Seq::empty(),
            frames: f2,
            pending_crlf: false,
            parsed: p2,
        };
        assert(forall|i: int| 0 <= i < tail.len() ==> wire_ok(#[trigger] tail[i])) by {
            assert(forall|i: int| 0 <= i < tail.len() ==> tail[i] == items[i + 1]);
        }
        lemma_machine_run_items(m2, tail);
    }
}

/// Round trip through the streaming machine from its initial state: the
/// encoding of a faithfully representable value yields exactly that one
/// value on the output queue.
pub proof fn lemma_stream_decode_of_encode(v: ValueModel)
    requires
        wire_ok(v),
    ensures
        spec_run(initial_machine(), spec_encode(v)) == Ok::<MachineModel, DecodeError>(
            MachineModel { parsed: seq![v], ..initial_machine() },
        ),
{
    lemma_machine_decode_of_encode(initial_machine(), v);
    assert(Seq::<ValueModel>::empty().push(v) =~= seq![v]);
    assert(MachineModel {
        state: State::ExpectingDataTypeIdent,
        buffer: Seq::empty(),
        frames: spec_commit(Seq::empty(), Seq::empty(), v).0,
        pending_crlf: false,
        parsed: spec_commit(Seq::empty(), Seq::empty(), v).1,
    } =~~= (MachineModel { parsed: seq![v], ..initial_machine() }));
}

/// Decodes wire data as an explicit state machine consuming one byte at
/// a time, so that values spanning many independent reads and arbitrarily
/// deep array nesting are handled without buffering whole messages.
pub struct StreamDecoder {
    pub state: State,
    pub parsing_buffer: Vec<u8>,
    /// Stack of item buffers for the open arrays, outermost first.
    pub array_buffer: Vec<Vec<DataType>>,
    /// Stack of counts still missing, aligned with `array_buffer`.
    pub array_remainders: Vec<usize>,
    pub expecting_rn: bool,
    /// Queue of completed top-level values.
    pub parsed: VecDeque<DataType>,
}

impl View for StreamDecoder {
    type V = MachineModel;

    open spec fn view(&self) -> MachineModel {
        MachineModel {
            state: self.state,
            buffer: self.parsing_buffer@,
            frames: Seq::new(
                self.array_buffer@.len(),
                |i: int|
                    (
                        DataType::model_seq(self.array_buffer@[i]@),
                        self.array_remainders@[i] as nat,
                    ),
            ),
            pending_crlf: self.expecting_rn,
            parsed: DataType::model_seq(self.parsed@),
        }
    }
}

impl StreamDecoder {
    /// The two stacks line up; `strict` further demands that every open
    /// frame still misses at least one value, which holds between bytes
    /// (during bubbling the top frame may transiently reach zero).
    pub open spec fn aligned(self, strict: bool) -> bool {
        &&& self.array_buffer@.len() == self.array_remainders@.len()
        &&& forall|i: int|
            0 <= i < self.array_remainders@.len() - 1 ==> #[trigger] self.array_remainders@[i] >= 1
        &&& strict && self.array_remainders@.len() > 0 ==> self.array_remainders@[
            self.array_remainders@.len() - 1
        ] >= 1
    }

    /// The machine's steady well-formedness, holding between bytes.
    pub open spec fn wf(self) -> bool {
        self.aligned(true)
    }

    /// A machine expecting its first byte.
    pub fn new() -> (r: Self)
        ensures
            r@ == initial_machine(),
            r.wf(),
    {
        let r = StreamDecoder {
            state: State::ExpectingDataTypeIdent,
            parsing_buffer: Vec::new(),
            array_buffer: Vec::new(),
            array_remainders: Vec::new(),
            expecting_rn: false,
            parsed: VecDeque::new(),
        };
        proof {
            assert(r@ =~= initial_machine());
        }
        r
    }

    /// Takes the next completed value off the queue, front first.
    pub fn pop_parsed(&mut self) -> (r: Option<DataType>)
        ensures
            final(self).state == old(self).state,
            final(self).parsing_buffer == old(self).parsing_buffer,
            final(self).array_buffer == old(self).array_buffer,
            final(self).array_remainders == old(self).array_remainders,
            final(self).expecting_rn == old(self).expecting_rn,
            match r {
                None => old(self)@.parsed.len() == 0 && final(self)@ == old(self)@,
                Some(v) => old(self)@.parsed.len() > 0 && v@ == old(self)@.parsed[0] && final(self)@.parsed == old(self)@.parsed.drop_first(),
            },
    {
        proof {
            crate::protocol::lemma_model_seq_all(self.parsed@);
        }
        match self.parsed.pop_front() {
            None => {
                proof {
                    assert(self@ =~= old(self)@);
                }
                None
            },
            Some(v) => {
                proof {
                    crate::protocol::lemma_model_seq_all(self.parsed@);
                    assert(DataType::model_seq(self.parsed@) =~= DataType::model_seq(
                        old(self).parsed@,
                    ).drop_first());
                }
                Some(v)
            },
        }
    }

    /// Commits the last open frame when it is complete: the finished
    /// array moves into the frame above (returning `Some` so the caller
    /// checks that one too) or, at the bottom of the stack, into the
    /// output queue.
    pub fn commit_array_buffer(&mut self) -> (r: Option<()>)
        requires
            old(self).aligned(false),
            old(self).array_buffer@.len() >= 1,
        ensures
            final(self).aligned(false),
            final(self).state == old(self).state,
            final(self).parsing_buffer@ == old(self).parsing_buffer@,
            final(self).expecting_rn == old(self).expecting_rn,
            spec_bubble(final(self)@.frames, final(self)@.parsed) == spec_bubble(
                old(self)@.frames,
                old(self)@.parsed,
            ),
            r matches Option::None ==> spec_bubble(final(self)@.frames, final(self)@.parsed) == (
                final(self)@.frames,
                final(self)@.parsed,
            ),
            r matches Option::None ==> (final(self).array_remainders@.len() == 0 || final(self).array_remainders@[final(self).array_remainders@.len() - 1] >= 1),
            r matches Option::Some(_) ==> final(self).array_buffer@.len() >= 1 && final(self).array_buffer@.len() < old(self).array_buffer@.len(),
    {
        let ghost f0 = old(self)@.frames;
        let ghost p0 = old(self)@.parsed;
        let remainder = match self.array_remainders.pop() {
            Some(x) => x,
            None => {
                proof {
                    assert(false);
                }
                return None;
            },
        };
        if remainder > 0 {
            self.array_remainders.push(remainder);
            proof {
                assert(self.array_remainders@ =~= old(self).array_remainders@);
                assert(self@.frames =~~= f0);
            }
            return None;
        }
        let items = match self.array_buffer.pop() {
            Some(x) => x,
            None => {
                proof {
                    assert(false);
                }
                return None;
            },
        };
        let ghost arr_model = ValueModel::Array { items: DataType::model_seq(items@) };
        let array = DataType::Array { items };
        proof {
            assert(array@ == arr_model);
            assert(f0.last() == (arr_model->Array_items, 0nat));
        }
        if self.array_buffer.len() > 0 {
            let mut parent = match self.array_buffer.pop() {
                Some(x) => x,
                None => {
                    proof {
                        assert(false);
                    }
                    return None;
                },
            };
            let ghost parent0 = parent@;
            parent.push(array);
            proof {
                assert(parent@.drop_last() =~= parent0);
                assert(DataType::model_seq(parent@) == DataType::model_seq(parent0).push(
                    arr_model,
                ));
            }
            self.array_buffer.push(parent);
            let parent_remainders = match self.array_remainders.pop() {
                Some(x) => x,
                None => {
                    proof {
                        assert(false);
                    }
                    return None;
                },
            };
            self.array_remainders.push(parent_remainders - 1);
            proof {
                let rest = f0.drop_last();
                assert(self@.frames =~~= rest.drop_last().push(
                    (rest.last().0.push(arr_model), (rest.last().1 - 1) as nat),
                ));
            }
            return Some(());
        } else {
            self.parsed.push_back(array);
            proof {
                assert(self.parsed@.drop_last() =~= old(self).parsed@);
                assert(DataType::model_seq(self.parsed@) == DataType::model_seq(
                    old(self).parsed@,
                ).push(arr_model));
                assert(self@.frames =~~= f0.drop_last());
                assert(self@.frames.len() == 0);
            }
            return None;
        }
    }

    /// Commits the parsing buffer as a value of the given kind: into the
    /// open arrays through the bubbling pass, or onto the output queue.
    /// The buffer is emptied.
    pub fn commit_buffer(&mut self, type_: Type) -> (r: Result<(), DecodeError>)
        requires
            old(self).wf(),
        ensures
            match r {
                Err(e) => type_.spec_as_datatype(old(self)@.buffer) == Err::<
                    ValueModel,
                    DecodeError,
                >(e),
                Ok(()) => final(self).wf() && final(self).state == old(self).state && final(self).expecting_rn == old(self).expecting_rn && final(self)@.buffer == Seq::<
                    u8,
                >::empty() && match type_.spec_as_datatype(old(self)@.buffer) {
                    Ok(v) => (final(self)@.frames, final(self)@.parsed) == spec_commit(
                        old(self)@.frames,
                        old(self)@.parsed,
                        v,
                    ),
                    Err(_) => false,
                },
            },
    {
        let data = match type_.as_datatype(&self.parsing_buffer) {
            Ok(d) => d,
            Err(e) => {
                return Err(e);
            },
        };
        self.commit_value(data);
        self.parsing_buffer.clear();
        Ok(())
    }

    /// Commits a finished value into the open arrays (with the bubbling
    /// pass) or onto the output queue. Only the frames and the queue move.
    pub fn commit_value(&mut self, data: DataType)
        requires
            old(self).wf(),
        ensures
            final(self).wf(),
            final(self).state == old(self).state,
            final(self).parsing_buffer@ == old(self).parsing_buffer@,
            final(self).expecting_rn == old(self).expecting_rn,
            (final(self)@.frames, final(self)@.parsed) == spec_commit(
                old(self)@.frames,
                old(self)@.parsed,
                data@,
            ),
    {
        let ghost f0 = old(self)@.frames;
        let ghost p0 = old(self)@.parsed;
        let ghost v_model = data@;
        if self.array_buffer.len() > 0 {
            let mut storage = match self.array_buffer.pop() {
                Some(x) => x,
                None => {
                    proof {
                        assert(false);
                    }
                    return ;
                },
            };
            let ghost storage0 = storage@;
            storage.push(data);
            proof {
                assert(storage@.drop_last() =~= storage0);
                assert(DataType::model_seq(storage@) == DataType::model_seq(storage0).push(
                    v_model,
                ));
            }
            self.array_buffer.push(storage);
            let remainder = match self.array_remainders.pop() {
                Some(x) => x,
                None => {
                    proof {
                        assert(false);
                    }
                    return ;
                },
            };
            let new_remainder = remainder - 1;
            self.array_remainders.push(new_remainder);
            let ghost stacked = f0.drop_last().push((f0.last().0.push(v_model), (f0.last().1
                - 1) as nat));
            proof {
                assert(self@.frames =~~= stacked);
                assert(spec_commit(f0, p0, v_model) == spec_bubble(stacked, p0));
            }
            if new_remainder == 0 {
                loop
                    invariant_except_break
                        self.array_buffer@.len() >= 1,
                    invariant
                        self.aligned(false),
                        self.state == old(self).state,
                        self.parsing_buffer@ == old(self).parsing_buffer@,
                        self.expecting_rn == old(self).expecting_rn,
                        spec_bubble(self@.frames, self@.parsed) == spec_bubble(stacked, p0),
                    ensures
                        self.aligned(true),
                        self.state == old(self).state,
                        self.parsing_buffer@ == old(self).parsing_buffer@,
                        self.expecting_rn == old(self).expecting_rn,
                        (self@.frames, self@.parsed) == spec_bubble(stacked, p0),
                    decreases self.array_buffer@.len(),
                {
                    match self.commit_array_buffer() {
                        Some(()) => {},
                        None => {
                            break ;
                        },
                    }
                }
            } else {
                proof {
                    assert(spec_bubble(stacked, p0) == (stacked, p0));
                }
            }
        } else {
            self.parsed.push_back(data);
            proof {
                assert(self.parsed@.drop_last() =~= old(self).parsed@);
                assert(DataType::model_seq(self.parsed@) == DataType::model_seq(
                    old(self).parsed@,
                ).push(v_model));
                assert(self@.frames =~~= f0);
            }
        }
    }

    /// Parses the buffer as a signed size or integer field and empties it.
    pub fn buffer_as_isize(&mut self) -> (r: Result<isize, DecodeError>)
        ensures
            final(self).state == old(self).state,
            final(self).array_buffer@ == old(self).array_buffer@,
            final(self).array_remainders@ == old(self).array_remainders@,
            final(self).expecting_rn == old(self).expecting_rn,
            final(self).parsed@ == old(self).parsed@,
            final(self)@.buffer == Seq::<u8>::empty(),
            match r {
                Ok(n) => spec_parse_isize(old(self)@.buffer) == Some(n as int),
                Err(e) => spec_parse_isize(old(self)@.buffer) is None && e
                    == DecodeError::InvalidInteger,
            },
    {
        let parsed = parse_isize(self.parsing_buffer.as_slice());
        self.parsing_buffer.clear();
        match parsed {
            Some(n) => Ok(n),
            None => Err(DecodeError::InvalidInteger),
        }
    }

    /// Selects the next state from a type tag byte; any other byte is the
    /// soft idle condition and is dropped.
    pub fn handle_datatype_ident(&mut self, byte: u8) -> (r: Result<(), ParseError>)
        ensures
            final(self).parsing_buffer@ == old(self).parsing_buffer@,
            final(self).array_buffer@ == old(self).array_buffer@,
            final(self).array_remainders@ == old(self).array_remainders@,
            final(self).expecting_rn == old(self).expecting_rn,
            final(self).parsed@ == old(self).parsed@,
            match r {
                Ok(()) => (byte == TAG_SIMPLE || byte == TAG_INTEGER || byte == TAG_BULK || byte
                    == TAG_ERROR || byte == TAG_ARRAY) && final(self)@ == (MachineModel {
                    state: spec_state_for_tag(byte),
                    ..old(self)@
                }),
                Err(e) => e == ParseError::StreamIdle && !(byte == TAG_SIMPLE || byte
                    == TAG_INTEGER || byte == TAG_BULK || byte == TAG_ERROR || byte == TAG_ARRAY)
                    && final(self)@ == old(self)@,
            },
    {
        if byte == TAG_SIMPLE {
            self.state = State::ExpectingSimpleStringChar;
        } else if byte == TAG_INTEGER {
            self.state = State::ExpectingInteger;
        } else if byte == TAG_BULK {
            self.state = State::ExpectingBulkStringSize;
        } else if byte == TAG_ERROR {
            self.state = State::ExpectingErrorData;
        } else if byte == TAG_ARRAY {
            self.state = State::ExpectingArraySize;
        } else {
            proof {
                assert(self@ =~= old(self)@);
            }
            return Err(ParseError::StreamIdle);
        }
        proof {
            assert(self@ =~~= (MachineModel { state: spec_state_for_tag(byte), ..old(self)@ }));
        }
        Ok(())
    }

    /// One byte of work in a scalar state; `type_` names the kind that a
    /// completed line commits as.
    pub fn handle_simple_read(&mut self, byte: u8, type_: Type) -> (r: Result<(), DecodeError>)
        requires
            old(self).wf(),
        ensures
            match r {
                Ok(()) => spec_scalar_step(old(self)@, byte, type_) == Ok::<
                    MachineModel,
                    DecodeError,
                >(final(self)@) && final(self).wf(),
                Err(e) => spec_scalar_step(old(self)@, byte, type_) == Err::<
                    MachineModel,
                    DecodeError,
                >(e),
            },
    {
        if self.expecting_rn {
            if byte == LF {
                self.expecting_rn = false;
                match self.commit_buffer(type_) {
                    Ok(()) => {},
                    Err(e) => {
                        return Err(e);
                    },
                }
                self.state = State::ExpectingDataTypeIdent;
                proof {
                    match type_.spec_as_datatype(old(self)@.buffer) {
                        Ok(v) => {
                            let (f, p) = spec_commit(
                                old(self)@.frames,
                                old(self)@.parsed,
                                v,
                            );
                            assert(self@ =~~= (MachineModel {
                                state: State::ExpectingDataTypeIdent,
                                buffer: Seq::empty(),
                                frames: f,
                                pending_crlf: false,
                                parsed: p,
                            }));
                        },
                        Err(_) => {},
                    }
                }
            } else if byte == CR {
                self.parsing_buffer.push(CR);
                proof {
                    assert(self@ =~~= (MachineModel {
                        buffer: old(self)@.buffer.push(CR),
                        ..old(self)@
                    }));
                }
            } else {
                self.parsing_buffer.push(CR);
                self.parsing_buffer.push(byte);
                self.expecting_rn = false;
                proof {
                    assert(self@ =~~= (MachineModel {
                        buffer: old(self)@.buffer.push(CR).push(byte),
                        pending_crlf: false,
                        ..old(self)@
                    }));
                }
            }
        } else if byte == CR {
            self.expecting_rn = true;
            proof {
                assert(self@ =~~= (MachineModel { pending_crlf: true, ..old(self)@ }));
            }
        } else {
            self.parsing_buffer.push(byte);
            proof {
                assert(self@ =~~= (MachineModel {
                    buffer: old(self)@.buffer.push(byte),
                    ..old(self)@
                }));
            }
        }
        Ok(())
    }

    /// One byte of work while reading a simple-string line.
    pub fn handle_simple_string_char(&mut self, byte: u8) -> (r: Result<(), DecodeError>)
        requires
            old(self).wf(),
        ensures
            match r {
                Ok(()) => spec_scalar_step(old(self)@, byte, Type::SimpleString) == Ok::<
                    MachineModel,
                    DecodeError,
                >(final(self)@) && final(self).wf(),
                Err(e) => spec_scalar_step(old(self)@, byte, Type::SimpleString) == Err::<
                    MachineModel,
                    DecodeError,
                >(e),
            },
    {
        self.handle_simple_read(byte, Type::SimpleString)
    }

    /// One byte of work while reading an integer line.
    pub fn handle_integer(&mut self, byte: u8) -> (r: Result<(), DecodeError>)
        requires
            old(self).wf(),
        ensures
            match r {
                Ok(()) => spec_scalar_step(old(self)@, byte, Type::Integer) == Ok::<
                    MachineModel,
                    DecodeError,
                >(final(self)@) && final(self).wf(),
                Err(e) => spec_scalar_step(old(self)@, byte, Type::Integer) == Err::<
                    MachineModel,
                    DecodeError,
                >(e),
            },
    {
        self.handle_simple_read(byte, Type::Integer)
    }

    /// One byte of work while reading an error line.
    pub fn handle_error_data(&mut self, byte: u8) -> (r: Result<(), DecodeError>)
        requires
            old(self).wf(),
        ensures
            match r {
                Ok(()) => spec_scalar_step(old(self)@, byte, Type::Error) == Ok::<
                    MachineModel,
                    DecodeError,
                >(final(self)@) && final(self).wf(),
                Err(e) => spec_scalar_step(old(self)@, byte, Type::Error) == Err::<
                    MachineModel,
                    DecodeError,
                >(e),
            },
    {
        self.handle_simple_read(byte, Type::Error)
    }

    /// One byte of work while reading a bulk-string size line.
    pub fn handle_bulk_string_size(&mut self, byte: u8) -> (r: Result<(), DecodeError>)
        requires
            old(self).wf(),
        ensures
            match r {
                Ok(()) => spec_bulk_size_step(old(self)@, byte) == Ok::<MachineModel, DecodeError>(
                    final(self)@,
                ) && final(self).wf(),
                Err(e) => spec_bulk_size_step(old(self)@, byte) == Err::<
                    MachineModel,
                    DecodeError,
                >(e),
            },
    {
        if self.expecting_rn {
            if byte == LF {
                self.expecting_rn = false;
                let size = match self.buffer_as_isize() {
                    Ok(n) => n,
                    Err(e) => {
                        return Err(e);
                    },
                };
                if size == -1 {
                    match self.commit_buffer(Type::NullBulkString) {
                        Ok(()) => {},
                        Err(_) => {
                            proof {
                                assert(false);
                            }
                            return Err(DecodeError::InvalidInteger);
                        },
                    }
                    self.state = State::ExpectingDataTypeIdent;
                    proof {
                        let (f, p) = spec_commit(
                            old(self)@.frames,
                            old(self)@.parsed,
                            ValueModel::NullBulkString,
                        );
                        assert(self@ =~~= (MachineModel {
                            state: State::ExpectingDataTypeIdent,
                            buffer: Seq::empty(),
                            frames: f,
                            pending_crlf: false,
                            parsed: p,
                        }));
                    }
                    Ok(())
                } else if size < -1 {
                    Err(DecodeError::InvalidBulkStringLength)
                } else {
                    self.state = State::ExpectingBulkStringChar(size as usize);
                    proof {
                        assert(self@ =~~= (MachineModel {
                            state: State::ExpectingBulkStringChar((size as int) as usize),
                            buffer: Seq::empty(),
                            pending_crlf: false,
                            ..old(self)@
                        }));
                    }
                    Ok(())
                }
            } else {
                Err(DecodeError::InvalidInteger)
            }
        } else if byte == CR {
            self.expecting_rn = true;
            proof {
                assert(self@ =~~= (MachineModel { pending_crlf: true, ..old(self)@ }));
            }
            Ok(())
        } else {
            self.parsing_buffer.push(byte);
            proof {
                assert(self@ =~~= (MachineModel {
                    buffer: old(self)@.buffer.push(byte),
                    ..old(self)@
                }));
            }
            Ok(())
        }
    }

    /// One byte of work while reading a bulk-string payload or terminator.
    pub fn handle_bulk_string_char(&mut self, byte: u8, remaining: usize) -> (r: Result<
        (),
        DecodeError,
    >)
        requires
            old(self).wf(),
        ensures
            match r {
                Ok(()) => spec_bulk_char_step(old(self)@, byte, remaining) == Ok::<
                    MachineModel,
                    DecodeError,
                >(final(self)@) && final(self).wf(),
                Err(e) => spec_bulk_char_step(old(self)@, byte, remaining) == Err::<
                    MachineModel,
                    DecodeError,
                >(e),
            },
    {
        if remaining > 0 {
            self.parsing_buffer.push(byte);
            self.state = State::ExpectingBulkStringChar(remaining - 1);
            proof {
                assert(self@ =~~= (MachineModel {
                    state: State::ExpectingBulkStringChar((remaining - 1) as usize),
                    buffer: old(self)@.buffer.push(byte),
                    ..old(self)@
                }));
            }
            Ok(())
        } else if self.expecting_rn {
            if byte == LF {
                self.expecting_rn = false;
                match self.commit_buffer(Type::BulkString) {
                    Ok(()) => {},
                    Err(_) => {
                        proof {
                            assert(false);
                        }
                        return Err(DecodeError::BadStringTermination);
                    },
                }
                self.state = State::ExpectingDataTypeIdent;
                proof {
                    let (f, p) = spec_commit(
                        old(self)@.frames,
                        old(self)@.parsed,
                        ValueModel::BulkString { string: old(self)@.buffer },
                    );
                    assert(self@ =~~= (MachineModel {
                        state: State::ExpectingDataTypeIdent,
                        buffer: Seq::empty(),
                        frames: f,
                        pending_crlf: false,
                        parsed: p,
                    }));
                }
                Ok(())
            } else {
                Err(DecodeError::BadStringTermination)
            }
        } else if byte == CR {
            self.expecting_rn = true;
            proof {
                assert(self@ =~~= (MachineModel { pending_crlf: true, ..old(self)@ }));
            }
            Ok(())
        } else {
            Err(DecodeError::BadStringTermination)
        }
    }

    /// One byte of work while reading an array count line.
    pub fn handle_array_size(&mut self, byte: u8) -> (r: Result<(), DecodeError>)
        requires
            old(self).wf(),
        ensures
            match r {
                Ok(()) => spec_array_size_step(old(self)@, byte) == Ok::<MachineModel, DecodeError>(
                    final(self)@,
                ) && final(self).wf(),
                Err(e) => spec_array_size_step(old(self)@, byte) == Err::<
                    MachineModel,
                    DecodeError,
                >(e),
            },
    {
        if self.expecting_rn {
            if byte == LF {
                self.expecting_rn = false;
                let size = match self.buffer_as_isize() {
                    Ok(n) => n,
                    Err(e) => {
                        return Err(e);
                    },
                };
                if size < 0 {
                    Err(DecodeError::InvalidArraySize)
                } else if size == 0 {
                    self.commit_value(DataType::Array { items: Vec::new() });
                    self.state = State::ExpectingDataTypeIdent;
                    proof {
                        assert(DataType::model_seq(Seq::<DataType>::empty())
                            =~= Seq::<ValueModel>::empty());
                        let (f, p) = spec_commit(
                            old(self)@.frames,
                            old(self)@.parsed,
                            ValueModel::Array { items: Seq::empty() },
                        );
                        assert(self@ =~~= (MachineModel {
                            state: State::ExpectingDataTypeIdent,
                            buffer: Seq::empty(),
                            frames: f,
                            pending_crlf: false,
                            parsed: p,
                        }));
                    }
                    Ok(())
                } else {
                    self.array_buffer.push(Vec::new());
                    self.array_remainders.push(size as usize);
                    self.state = State::ExpectingDataTypeIdent;
                    proof {
                        assert(DataType::model_seq(Seq::<DataType>::empty())
                            =~= Seq::<ValueModel>::empty());
                        assert(self@ =~~= (MachineModel {
                            state: State::ExpectingDataTypeIdent,
                            buffer: Seq::empty(),
                            frames: old(self)@.frames.push((Seq::empty(), size as nat)),
                            pending_crlf: false,
                            parsed: old(self)@.parsed,
                        }));
                    }
                    Ok(())
                }
            } else {
                Err(DecodeError::InvalidInteger)
            }
        } else if byte == CR {
            self.expecting_rn = true;
            proof {
                assert(self@ =~~= (MachineModel { pending_crlf: true, ..old(self)@ }));
            }
            Ok(())
        } else {
            self.parsing_buffer.push(byte);
            proof {
                assert(self@ =~~= (MachineModel {
                    buffer: old(self)@.buffer.push(byte),
                    ..old(self)@
                }));
            }
            Ok(())
        }
    }

    /// One byte of work: dispatches on the machine's state, swallowing
    /// the soft idle signal on stray bytes between values.
    pub fn push_byte(&mut self, byte: u8) -> (r: Result<(), DecodeError>)
        requires
            old(self).wf(),
        ensures
            match r {
                Ok(()) => spec_step(old(self)@, byte) == Ok::<MachineModel, DecodeError>(
                    final(self)@,
                ) && final(self).wf(),
                Err(e) => spec_step(old(self)@, byte) == Err::<MachineModel, DecodeError>(e),
            },
    {
        match self.state {
            State::ExpectingDataTypeIdent => {
                match self.handle_datatype_ident(byte) {
                    Ok(()) => {},
                    Err(_) => {
                        proof {
                            assert(self@ =~~= (MachineModel {
                                state: old(self)@.state,
                                ..old(self)@
                            }));
                        }
                    },
                }
                Ok(())
            },
            State::ExpectingSimpleStringChar => self.handle_simple_string_char(byte),
            State::ExpectingInteger => self.handle_integer(byte),
            State::ExpectingBulkStringSize => self.handle_bulk_string_size(byte),
            State::ExpectingBulkStringChar(remaining) => self.handle_bulk_string_char(
                byte,
                remaining,
            ),
            State::ExpectingErrorData => self.handle_error_data(byte),
            State::ExpectingArraySize => self.handle_array_size(byte),
        }
    }

    /// Feeds a whole read's worth of bytes through the machine, one byte
    /// at a time, in order.
    #[verifier::loop_isolation(false)]
    pub fn feed(&mut self, data: &[u8]) -> (r: Result<(), DecodeError>)
        requires
            old(self).wf(),
        ensures
            match r {
                Ok(()) => spec_run(old(self)@, data@) == Ok::<MachineModel, DecodeError>(
                    final(self)@,
                ) && final(self).wf(),
                Err(e) => spec_run(old(self)@, data@) == Err::<MachineModel, DecodeError>(e),
            },
    {
        let ghost m0 = old(self)@;
        let mut i: usize = 0;
        proof {
            assert(data@.take(0) =~= Seq::<u8>::empty());
        }
        while i < data.len()
            invariant
                i <= data@.len(),
                self.wf(),
                spec_run(m0, data@.take(i as int)) == Ok::<MachineModel, DecodeError>(self@),
            decreases data@.len() - i,
        {
            proof {
                lemma_run_one_byte_at_a_time(m0, data@, i as int);
            }
            let b = data[i];
            match self.push_byte(b) {
                Ok(()) => {},
                Err(e) => {
                    proof {
                        lemma_run_append(m0, data@.take(i + 1), data@.skip(i + 1));
                        assert(data@.take(i + 1) + data@.skip(i + 1) =~= data@);
                    }
                    return Err(e);
                },
            }
            i = i + 1;
        }
        proof {
            assert(data@.take(data@.len() as int) =~= data@);
        }
        Ok(())
    }
}

} // verus!
