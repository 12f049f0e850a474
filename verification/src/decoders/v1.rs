use crate::bytes_ext::{bytes_len, bytes_read_u8, bytes_view};
use crate::decoders::{
    lemma_dec_int_bytes, lemma_scan_content, lemma_scan_rest_len, no_crlf, scan_scalar,
    valid_wire, wire_ok, ScanOutcome,
};
use crate::numeric::{
    lemma_parse_of_format, parse_isize, spec_dec_int, spec_dec_nat, spec_parse_isize,
};
use crate::protocol::{
    lemma_encode_items_first, spec_encode, spec_encode_items, DataType, ValueModel, CR, LF,
    TAG_ARRAY, TAG_BULK, TAG_ERROR, TAG_INTEGER, TAG_SIMPLE,
};
use vstd::prelude::*;

verus! {

/// The failures of the batch decoder.
#[derive(Debug, PartialEq, Eq)]
pub enum ScanError {
    /// A NUL tag byte: the zero padding that follows the last value in a
    /// fixed-size read buffer.
    StreamEnded,
    /// A tag byte that names no value kind.
    UnkownDataType(char),
    /// The byte source itself was closed.
    StreamClosed,
    /// The buffer ran out in the middle of a value.
    NoBytesLeft,
    /// A bulk-string length below the null sentinel `-1`.
    InvalidBulkStringLength,
    /// A bulk-string payload not closed by CRLF.
    InvalidStringTermination,
    /// A size or integer field that is not a well-formed number.
    InvalidInteger,
}

impl ScanError {
    /// The message that describes this error.
    pub fn message(&self) -> (r: &'static str) {
        match self {
            ScanError::StreamEnded => "stream ended",
            ScanError::UnkownDataType(_) => "unkown datatype",
            ScanError::StreamClosed => "closed stream",
            ScanError::NoBytesLeft => "no bytes left",
            ScanError::InvalidBulkStringLength => "invalid bulk string length",
            ScanError::InvalidStringTermination => "invalid string termination",
            ScanError::InvalidInteger => "error parsing integer",
        }
    }
}

/// Caps `r` at `s`: the identity whenever `r` is no longer than `s`.
/// `spec_decode` applies it to the rest returned by an inner call, which
/// never lengthens its input, so the cap changes nothing; it only makes
/// that fact syntactic for the termination check.
pub open spec fn cap_rest(s: Seq<u8>, r: Seq<u8>) -> Seq<u8> {
    if r.len() <= s.len() {
        r
    } else {
        s
    }
}

/// Decodes `k` consecutive values from the front of `s` by recursive
/// descent: a tag byte selects the kind; scalar kinds run to the CRLF
/// found by `scan_scalar`; a bulk string reads its declared length, that
/// many payload bytes, and an exact CRLF, with `-1` standing for the null
/// bulk string; an array reads its declared count and that many values
/// (a negative count yields an empty array). Returns the values and the
/// unconsumed rest, or the error of the first failure.
pub open spec fn spec_decode(s: Seq<u8>, k: nat) -> Result<(Seq<ValueModel>, Seq<u8>), ScanError>
    decreases s.len(), k, 0nat,
    via spec_decode_decreases
{
    if k == 0 {
        Ok((Seq::empty(), s))
    } else if s.len() == 0 {
        Err(ScanError::NoBytesLeft)
    } else {
        let tag = s.first();
        let body = s.drop_first();
        if tag == TAG_SIMPLE || tag == TAG_ERROR || tag == TAG_INTEGER || tag == TAG_BULK || tag
            == TAG_ARRAY {
            match scan_scalar(body, Seq::empty(), false) {
                ScanOutcome::Incomplete { .. } => Err(ScanError::NoBytesLeft),
                ScanOutcome::Done { content, rest } => {
                    if tag == TAG_SIMPLE {
                        spec_decode_cons(
                            ValueModel::SimpleString { string: content },
                            rest,
                            (k - 1) as nat,
                        )
                    } else if tag == TAG_ERROR {
                        spec_decode_cons(
                            ValueModel::Error { type_: Seq::empty(), error: content },
                            rest,
                            (k - 1) as nat,
                        )
                    } else if tag == TAG_INTEGER {
                        match spec_parse_isize(content) {
                            Some(n) => spec_decode_cons(
                                ValueModel::Integer { number: n },
                                rest,
                                (k - 1) as nat,
                            ),
                            None => Err(ScanError::InvalidInteger),
                        }
                    } else if tag == TAG_BULK {
                        match spec_parse_isize(content) {
                            None => Err(ScanError::InvalidInteger),
                            Some(n) => {
                                if n == -1 {
                                    spec_decode_cons(
                                        ValueModel::NullBulkString,
                                        rest,
                                        (k - 1) as nat,
                                    )
                                } else if n < -1 {
                                    Err(ScanError::InvalidBulkStringLength)
                                } else if rest.len() < n {
                                    Err(ScanError::NoBytesLeft)
                                } else {
                                    let payload = rest.take(n);
                                    let after = rest.skip(n);
                                    if after.len() == 0 {
                                        Err(ScanError::NoBytesLeft)
                                    } else if after[0] != CR {
                                        Err(ScanError::InvalidStringTermination)
                                    } else if after.len() == 1 {
                                        Err(ScanError::NoBytesLeft)
                                    } else if after[1] != LF {
                                        Err(ScanError::InvalidStringTermination)
                                    } else {
                                        spec_decode_cons(
                                            ValueModel::BulkString { string: payload },
                                            after.skip(2),
                                            (k - 1) as nat,
                                        )
                                    }
                                }
                            },
                        }
                    } else {
                        match spec_parse_isize(content) {
                            None => Err(ScanError::InvalidInteger),
                            Some(n) => {
                                let cnt = if n < 0 {
                                    0
                                } else {
                                    n as nat
                                };
                                match spec_decode(rest, cnt) {
                                    Err(e) => Err(e),
                                    Ok((vals, r2)) => spec_decode_cons(
                                        ValueModel::Array { items: vals },
                                        cap_rest(rest, r2),
                                        (k - 1) as nat,
                                    ),
                                }
                            },
                        }
                    }
                },
            }
        } else if tag == 0 {
            Err(ScanError::StreamEnded)
        } else {
            Err(ScanError::UnkownDataType(tag as char))
        }
    }
}

/// Prepends a decoded value onto the next `k` values decoded from `rest`.
pub open spec fn spec_decode_cons(v: ValueModel, rest: Seq<u8>, k: nat) -> Result<
    (Seq<ValueModel>, Seq<u8>),
    ScanError,
>
    decreases rest.len(), k, 1nat,
{
    match spec_decode(rest, k) {
        Err(e) => Err(e),
        Ok((more, r)) => Ok((seq![v] + more, r)),
    }
}

#[via_fn]
proof fn spec_decode_decreases(s: Seq<u8>, k: nat) {
    if k > 0 && s.len() > 0 {
        lemma_scan_rest_len(s.drop_first(), Seq::empty(), false);
    }
}

/// Decodes a single value: the front of `spec_decode` for one value.
pub open spec fn spec_decode_value(s: Seq<u8>) -> Result<(ValueModel, Seq<u8>), ScanError> {
    match spec_decode(s, 1) {
        Ok((vals, r)) => Ok((vals[0], r)),
        Err(e) => Err(e),
    }
}

/// Reads from `bytes` until the CRLF that closes a scalar, appending the
/// content to `buf` under the rules of `scan_scalar`; on exhaustion the
/// content read so far is still appended.
#[verifier::loop_isolation(false)]
pub fn read_until_rn(bytes: &mut bytes::Bytes, buf: &mut Vec<u8>) -> (r: Result<(), ScanError>)
    ensures
        match scan_scalar(bytes_view(*old(bytes)), Seq::empty(), false) {
            ScanOutcome::Done { content, rest } => r == Ok::<(), ScanError>(()) && final(buf)@
                == old(buf)@ + content && bytes_view(*final(bytes)) == rest,
            ScanOutcome::Incomplete { content } => r == Err::<(), ScanError>(
                ScanError::NoBytesLeft,
            ) && final(buf)@ == old(buf)@ + content && bytes_view(*final(bytes)).len() == 0,
        },
{
    let ghost v0 = bytes_view(*old(bytes));
    let ghost o = old(buf)@;
    let ghost len0 = o.len() as int;
    let mut pending: bool = false;
    proof {
        assert(o.skip(len0) =~= Seq::<u8>::empty());
    }
    loop
        invariant
            buf@.len() >= len0,
            buf@.take(len0) == o,
            scan_scalar(bytes_view(*bytes), buf@.skip(len0), pending) == scan_scalar(
                v0,
                Seq::empty(),
                false,
            ),
        decreases bytes_view(*bytes).len(),
    {
        let ghost v_pre = bytes_view(*bytes);
        let ghost extra = buf@.skip(len0);
        match bytes_read_u8(bytes) {
            None => {
                proof {
                    assert(buf@ =~= o + extra);
                }
                return Err(ScanError::NoBytesLeft);
            },
            Some(c) => {
                proof {
                    assert(v_pre.len() > 0 && c == v_pre.first() && bytes_view(*bytes)
                        == v_pre.drop_first());
                }
                if pending {
                    if c == LF {
                        proof {
                            assert(buf@ =~= o + extra);
                        }
                        return Ok(());
                    } else if c == CR {
                        buf.push(CR);
                        proof {
                            assert(buf@.take(len0) =~= o);
                            assert(buf@.skip(len0) =~= extra.push(CR));
                        }
                    } else {
                        buf.push(CR);
                        buf.push(c);
                        pending = false;
                        proof {
                            assert(buf@.take(len0) =~= o);
                            assert(buf@.skip(len0) =~= extra.push(CR).push(c));
                        }
                    }
                } else {
                    if c == CR {
                        pending = true;
                    } else {
                        buf.push(c);
                        proof {
                            assert(buf@.take(len0) =~= o);
                            assert(buf@.skip(len0) =~= extra.push(c));
                        }
                    }
                }
            },
        }
    }
}

/// Reads a scalar line and returns its content as a fresh byte vector.
pub fn read_until_rn_string(bytes: &mut bytes::Bytes) -> (r: Result<Vec<u8>, ScanError>)
    ensures
        match scan_scalar(bytes_view(*old(bytes)), Seq::empty(), false) {
            ScanOutcome::Done { content, rest } => r matches Ok(v) && v@ == content && bytes_view(
                *final(bytes),
            ) == rest,
            ScanOutcome::Incomplete { .. } => r == Err::<Vec<u8>, ScanError>(
                ScanError::NoBytesLeft,
            ),
        },
{
    let mut buf: Vec<u8> = Vec::new();
    match read_until_rn(bytes, &mut buf) {
        Ok(()) => {
            proof {
                match scan_scalar(bytes_view(*old(bytes)), Seq::empty(), false) {
                    ScanOutcome::Done { content, .. } => {
                        assert(buf@ =~= content);
                    },
                    ScanOutcome::Incomplete { .. } => {},
                }
            }
            Ok(buf)
        },
        Err(e) => Err(e),
    }
}

/// Reads a scalar line and parses it as a signed integer.
pub fn read_until_rn_integer(bytes: &mut bytes::Bytes) -> (r: Result<isize, ScanError>)
    ensures
        match scan_scalar(bytes_view(*old(bytes)), Seq::empty(), false) {
            ScanOutcome::Done { content, rest } => match spec_parse_isize(content) {
                Some(n) => r matches Ok(x) && x == n && bytes_view(*final(bytes)) == rest,
                None => r == Err::<isize, ScanError>(ScanError::InvalidInteger),
            },
            ScanOutcome::Incomplete { .. } => r == Err::<isize, ScanError>(ScanError::NoBytesLeft),
        },
{
    let buf = match read_until_rn_string(bytes) {
        Ok(v) => v,
        Err(e) => {
            return Err(e);
        },
    };
    match parse_isize(buf.as_slice()) {
        Some(n) => Ok(n),
        None => Err(ScanError::InvalidInteger),
    }
}

/// Decoding a single value is decoding the first of `k` values.
proof fn lemma_cons_zero(v: ValueModel, rest: Seq<u8>)
    ensures
        spec_decode_cons(v, rest, 0) == Ok::<(Seq<ValueModel>, Seq<u8>), ScanError>(
            (seq![v], rest),
        ),
{
    assert(seq![v] + Seq::<ValueModel>::empty() =~= seq![v]);
}

/// Unrolls `spec_decode` by one value: decoding `k > 0` values decodes one
/// value and then `k - 1` more from what it leaves.
pub proof fn lemma_decode_step(s: Seq<u8>, k: nat)
    requires
        k > 0,
    ensures
        spec_decode(s, k) == (match spec_decode_value(s) {
            Err(e) => Err::<(Seq<ValueModel>, Seq<u8>), ScanError>(e),
            Ok((v, r)) => spec_decode_cons(v, r, (k - 1) as nat),
        }),
{
    if s.len() == 0 {
        return ;
    }
    let tag = s.first();
    let body = s.drop_first();
    if tag == TAG_SIMPLE || tag == TAG_ERROR || tag == TAG_INTEGER || tag == TAG_BULK || tag
        == TAG_ARRAY {
        match scan_scalar(body, Seq::empty(), false) {
            ScanOutcome::Incomplete { .. } => {},
            ScanOutcome::Done { content, rest } => {
                if tag == TAG_SIMPLE {
                    lemma_cons_zero(ValueModel::SimpleString { string: content }, rest);
                } else if tag == TAG_ERROR {
                    lemma_cons_zero(
                        ValueModel::Error { type_: Seq::empty(), error: content },
                        rest,
                    );
                } else if tag == TAG_INTEGER {
                    match spec_parse_isize(content) {
                        Some(n) => {
                            lemma_cons_zero(ValueModel::Integer { number: n }, rest);
                        },
                        None => {},
                    }
                } else if tag == TAG_BULK {
                    match spec_parse_isize(content) {
                        None => {},
                        Some(n) => {
                            if n == -1 {
                                lemma_cons_zero(ValueModel::NullBulkString, rest);
                            } else if n >= 0 && rest.len() >= n {
                                let payload = rest.take(n);
                                let after = rest.skip(n);
                                if after.len() >= 2 && after[0] == CR && after[1] == LF {
                                    lemma_cons_zero(
                                        ValueModel::BulkString { string: payload },
                                        after.skip(2),
                                    );
                                }
                            }
                        },
                    }
                } else {
                    match spec_parse_isize(content) {
                        None => {},
                        Some(n) => {
                            let cnt = if n < 0 {
                                0
                            } else {
                                n as nat
                            };
                            match spec_decode(rest, cnt) {
                                Err(_) => {},
                                Ok((vals, r2)) => {
                                    lemma_cons_zero(
                                        ValueModel::Array { items: vals },
                                        cap_rest(rest, r2),
                                    );
                                },
                            }
                        },
                    }
                }
            },
        }
    }
}

/// Decodes a bulk string body (after the `$` tag): the declared length,
/// that many payload bytes, and an exact CRLF; `-1` yields the null value.
#[verifier::loop_isolation(false)]
pub fn decode_bulk_string(bytes: &mut bytes::Bytes) -> (r: Result<Option<Vec<u8>>, ScanError>)
    ensures
        match scan_scalar(bytes_view(*old(bytes)), Seq::empty(), false) {
            ScanOutcome::Incomplete { .. } => r == Err::<Option<Vec<u8>>, ScanError>(
                ScanError::NoBytesLeft,
            ),
            ScanOutcome::Done { content, rest } => match spec_parse_isize(content) {
                None => r == Err::<Option<Vec<u8>>, ScanError>(ScanError::InvalidInteger),
                Some(n) => if n == -1 {
                    r matches Ok(o) && o matches Option::None && bytes_view(*final(bytes)) == rest
                } else if n < -1 {
                    r == Err::<Option<Vec<u8>>, ScanError>(ScanError::InvalidBulkStringLength)
                } else if rest.len() < n {
                    r == Err::<Option<Vec<u8>>, ScanError>(ScanError::NoBytesLeft)
                } else {
                    let after = rest.skip(n);
                    if after.len() == 0 {
                        r == Err::<Option<Vec<u8>>, ScanError>(ScanError::NoBytesLeft)
                    } else if after[0] != CR {
                        r == Err::<Option<Vec<u8>>, ScanError>(ScanError::InvalidStringTermination)
                    } else if after.len() == 1 {
                        r == Err::<Option<Vec<u8>>, ScanError>(ScanError::NoBytesLeft)
                    } else if after[1] != LF {
                        r == Err::<Option<Vec<u8>>, ScanError>(ScanError::InvalidStringTermination)
                    } else {
                        (r matches Ok(o) && o matches Option::Some(p) && p@ == rest.take(n)
                            && bytes_view(*final(bytes)) == after.skip(2))
                    }
                },
            },
        },
{
    let size = match read_until_rn_integer(bytes) {
        Ok(n) => n,
        Err(e) => {
            return Err(e);
        },
    };
    if size == -1 {
        return Ok(None);
    }
    if size < -1 {
        return Err(ScanError::InvalidBulkStringLength);
    }
    let count = size as usize;
    let ghost rest = bytes_view(*bytes);
    let mut data_buf: Vec<u8> = Vec::new();
    let mut j: usize = 0;
    while j < count
        invariant
            j <= count,
            j <= rest.len(),
            data_buf@ == rest.take(j as int),
            bytes_view(*bytes) == rest.skip(j as int),
        decreases count - j,
    {
        match bytes_read_u8(bytes) {
            None => {
                proof {
                    assert(rest.skip(j as int).len() == 0);
                }
                return Err(ScanError::NoBytesLeft);
            },
            Some(c) => {
                data_buf.push(c);
                proof {
                    assert(c == rest[j as int]);
                    assert(data_buf@ =~= rest.take(j + 1));
                    assert(rest.skip(j as int).drop_first() =~= rest.skip(j + 1));
                }
                j = j + 1;
            },
        }
    }
    let ghost after = rest.skip(count as int);
    let b1 = match bytes_read_u8(bytes) {
        None => {
            return Err(ScanError::NoBytesLeft);
        },
        Some(c) => c,
    };
    if b1 != CR {
        return Err(ScanError::InvalidStringTermination);
    }
    let b2 = match bytes_read_u8(bytes) {
        None => {
            proof {
                assert(after.drop_first().len() == 0);
            }
            return Err(ScanError::NoBytesLeft);
        },
        Some(c) => c,
    };
    if b2 != LF {
        return Err(ScanError::InvalidStringTermination);
    }
    proof {
        assert(after.drop_first().drop_first() =~= after.skip(2));
    }
    Ok(Some(data_buf))
}

/// Decodes a simple-string body (after the `+` tag).
pub fn decode_simple_string(bytes: &mut bytes::Bytes) -> (r: Result<Vec<u8>, ScanError>)
    ensures
        match scan_scalar(bytes_view(*old(bytes)), Seq::empty(), false) {
            ScanOutcome::Done { content, rest } => r matches Ok(v) && v@ == content && bytes_view(
                *final(bytes),
            ) == rest,
            ScanOutcome::Incomplete { .. } => r == Err::<Vec<u8>, ScanError>(
                ScanError::NoBytesLeft,
            ),
        },
{
    read_until_rn_string(bytes)
}

/// Decodes an error body (after the `-` tag): the kind is left empty and
/// the whole line is the message.
pub fn decode_error(bytes: &mut bytes::Bytes) -> (r: Result<(Vec<u8>, Vec<u8>), ScanError>)
    ensures
        match scan_scalar(bytes_view(*old(bytes)), Seq::empty(), false) {
            ScanOutcome::Done { content, rest } => r matches Ok((t, m)) && t@ == Seq::<u8>::empty()
                && m@ == content && bytes_view(*final(bytes)) == rest,
            ScanOutcome::Incomplete { .. } => r == Err::<(Vec<u8>, Vec<u8>), ScanError>(
                ScanError::NoBytesLeft,
            ),
        },
{
    match decode_simple_string(bytes) {
        Ok(m) => Ok((Vec::new(), m)),
        Err(e) => Err(e),
    }
}

/// Decodes an integer body (after the `:` tag).
pub fn decode_integer(bytes: &mut bytes::Bytes) -> (r: Result<isize, ScanError>)
    ensures
        match scan_scalar(bytes_view(*old(bytes)), Seq::empty(), false) {
            ScanOutcome::Done { content, rest } => match spec_parse_isize(content) {
                Some(n) => r matches Ok(x) && x == n && bytes_view(*final(bytes)) == rest,
                None => r == Err::<isize, ScanError>(ScanError::InvalidInteger),
            },
            ScanOutcome::Incomplete { .. } => r == Err::<isize, ScanError>(ScanError::NoBytesLeft),
        },
{
    read_until_rn_integer(bytes)
}

/// Decodes an array body (after the `*` tag): the declared count and that
/// many values; a negative count yields an empty array.
#[verifier::loop_isolation(false)]
pub fn decode_array(bytes: &mut bytes::Bytes) -> (r: Result<Vec<DataType>, ScanError>)
    ensures
        match scan_scalar(bytes_view(*old(bytes)), Seq::empty(), false) {
            ScanOutcome::Incomplete { .. } => r == Err::<Vec<DataType>, ScanError>(
                ScanError::NoBytesLeft,
            ),
            ScanOutcome::Done { content, rest } => match spec_parse_isize(content) {
                None => r == Err::<Vec<DataType>, ScanError>(ScanError::InvalidInteger),
                Some(n) => match spec_decode(
                    rest,
                    if n < 0 {
                        0nat
                    } else {
                        n as nat
                    },
                ) {
                    Err(e) => r == Err::<Vec<DataType>, ScanError>(e),
                    Ok((vals, r2)) => r matches Ok(items) && DataType::model_seq(items@) == vals
                        && bytes_view(*final(bytes)) == r2 && r2.len() <= rest.len(),
                },
            },
        },
    decreases bytes_view(*old(bytes)).len(), 0nat,
{
    let ghost v0 = bytes_view(*old(bytes));
    let size = match read_until_rn_integer(bytes) {
        Ok(n) => n,
        Err(e) => {
            return Err(e);
        },
    };
    proof {
        lemma_scan_rest_len(v0, Seq::empty(), false);
    }
    let count: usize = if size < 0 {
        0
    } else {
        size as usize
    };
    let ghost rest = bytes_view(*bytes);
    let mut items: Vec<DataType> = Vec::new();
    let mut idx: usize = 0;
    proof {
        assert(DataType::model_seq(items@) =~= Seq::<ValueModel>::empty());
        match spec_decode(rest, count as nat) {
            Err(_) => {},
            Ok((vals, _)) => {
                assert(DataType::model_seq(items@) + vals =~= vals);
            },
        }
    }
    while idx < count
        invariant
            idx <= count,
            bytes_view(*bytes).len() <= rest.len(),
            match spec_decode(bytes_view(*bytes), (count - idx) as nat) {
                Err(e) => spec_decode(rest, count as nat) == Err::<
                    (Seq<ValueModel>, Seq<u8>),
                    ScanError,
                >(e),
                Ok((vals, r2)) => spec_decode(rest, count as nat) == Ok::<
                    (Seq<ValueModel>, Seq<u8>),
                    ScanError,
                >((DataType::model_seq(items@) + vals, r2)),
            },
        decreases count - idx,
    {
        let ghost view_pre = bytes_view(*bytes);
        proof {
            lemma_decode_step(view_pre, (count - idx) as nat);
        }
        let item = match DataType::from_bytes(bytes) {
            Ok(v) => v,
            Err(e) => {
                return Err(e);
            },
        };
        proof {
            let pre_items = items@;
            let v_model = item@;
            let view_post = bytes_view(*bytes);
            assert(pre_items.push(item).drop_last() =~= pre_items);
            assert(DataType::model_seq(pre_items.push(item)) == DataType::model_seq(
                pre_items,
            ).push(item@));
            match spec_decode(view_post, (count - idx - 1) as nat) {
                Err(_) => {},
                Ok((vals2, _)) => {
                    assert(DataType::model_seq(pre_items.push(item)) + vals2 =~=
                        DataType::model_seq(pre_items) + (seq![v_model] + vals2));
                },
            }
        }
        items.push(item);
        idx = idx + 1;
    }
    proof {
        match spec_decode(bytes_view(*bytes), 0) {
            Err(_) => {},
            Ok((vals, _)) => {
                assert(DataType::model_seq(items@) + vals =~= DataType::model_seq(items@));
            },
        }
    }
    Ok(items)
}

/// Decodes one value from the front of `bytes`: the tag byte selects the
/// kind and the matching body decoder runs. On success the consumed bytes
/// are exactly one value's encoding under `spec_decode_value`.
pub fn decode_value(bytes: &mut bytes::Bytes) -> (r: Result<DataType, ScanError>)
    ensures
        match r {
            Ok(v) => spec_decode_value(bytes_view(*old(bytes))) == Ok::<
                (ValueModel, Seq<u8>),
                ScanError,
            >((v@, bytes_view(*final(bytes)))) && bytes_view(*final(bytes)).len() < bytes_view(
                *old(bytes),
            ).len(),
            Err(e) => spec_decode_value(bytes_view(*old(bytes))) == Err::<
                (ValueModel, Seq<u8>),
                ScanError,
            >(e),
        },
    decreases bytes_view(*old(bytes)).len(), 0nat,
{
    let ghost s = bytes_view(*old(bytes));
    let tag = match bytes_read_u8(bytes) {
        None => {
            return Err(ScanError::NoBytesLeft);
        },
        Some(t) => t,
    };
    let ghost body = s.drop_first();
    proof {
        lemma_scan_rest_len(body, Seq::empty(), false);
    }
    if tag == TAG_SIMPLE {
        let string = match decode_simple_string(bytes) {
            Ok(v) => v,
            Err(e) => {
                return Err(e);
            },
        };
        proof {
            match scan_scalar(body, Seq::empty(), false) {
                ScanOutcome::Done { content, rest } => {
                    lemma_cons_zero(ValueModel::SimpleString { string: content }, rest);
                },
                ScanOutcome::Incomplete { .. } => {},
            }
        }
        Ok(DataType::SimpleString { string })
    } else if tag == TAG_ERROR {
        let (type_, error) = match decode_error(bytes) {
            Ok(v) => v,
            Err(e) => {
                return Err(e);
            },
        };
        proof {
            match scan_scalar(body, Seq::empty(), false) {
                ScanOutcome::Done { content, rest } => {
                    lemma_cons_zero(
                        ValueModel::Error { type_: Seq::empty(), error: content },
                        rest,
                    );
                },
                ScanOutcome::Incomplete { .. } => {},
            }
        }
        Ok(DataType::Error { type_, error })
    } else if tag == TAG_INTEGER {
        let number = match decode_integer(bytes) {
            Ok(v) => v,
            Err(e) => {
                return Err(e);
            },
        };
        proof {
            match scan_scalar(body, Seq::empty(), false) {
                ScanOutcome::Done { content, rest } => {
                    match spec_parse_isize(content) {
                        Some(n) => {
                            lemma_cons_zero(ValueModel::Integer { number: n }, rest);
                        },
                        None => {},
                    }
                },
                ScanOutcome::Incomplete { .. } => {},
            }
        }
        Ok(DataType::Integer { number })
    } else if tag == TAG_BULK {
        let decoded = match decode_bulk_string(bytes) {
            Ok(v) => v,
            Err(e) => {
                return Err(e);
            },
        };
        proof {
            match scan_scalar(body, Seq::empty(), false) {
                ScanOutcome::Done { content, rest } => {
                    match spec_parse_isize(content) {
                        Some(n) => {
                            if n == -1 {
                                lemma_cons_zero(ValueModel::NullBulkString, rest);
                            } else if n >= 0 && rest.len() >= n {
                                let after = rest.skip(n);
                                if after.len() >= 2 && after[0] == CR && after[1] == LF {
                                    lemma_cons_zero(
                                        ValueModel::BulkString { string: rest.take(n) },
                                        after.skip(2),
                                    );
                                }
                            }
                        },
                        None => {},
                    }
                },
                ScanOutcome::Incomplete { .. } => {},
            }
        }
        match decoded {
            Some(string) => Ok(DataType::BulkString { string }),
            None => Ok(DataType::NullBulkString),
        }
    } else if tag == TAG_ARRAY {
        let items = match decode_array(bytes) {
            Ok(v) => v,
            Err(e) => {
                return Err(e);
            },
        };
        proof {
            match scan_scalar(body, Seq::empty(), false) {
                ScanOutcome::Done { content, rest } => {
                    match spec_parse_isize(content) {
                        Some(n) => {
                            let cnt = if n < 0 {
                                0nat
                            } else {
                                n as nat
                            };
                            match spec_decode(rest, cnt) {
                                Ok((vals, r2)) => {
                                    lemma_cons_zero(
                                        ValueModel::Array { items: vals },
                                        cap_rest(rest, r2),
                                    );
                                },
                                Err(_) => {},
                            }
                        },
                        None => {},
                    }
                },
                ScanOutcome::Incomplete { .. } => {},
            }
        }
        Ok(DataType::Array { items })
    } else if tag == 0 {
        Err(ScanError::StreamEnded)
    } else {
        Err(ScanError::UnkownDataType(tag as char))
    }
}

/// Decoding of protocol values out of a byte buffer.
pub trait DataTypeFrom {
    /// Decodes the next value from the front of `bytes`.
    fn from_bytes(bytes: &mut bytes::Bytes) -> (r: Result<DataType, ScanError>)
        ensures
            match r {
                Ok(v) => spec_decode_value(bytes_view(*old(bytes))) == Ok::<
                    (ValueModel, Seq<u8>),
                    ScanError,
                >((v@, bytes_view(*final(bytes)))) && bytes_view(*final(bytes)).len() < bytes_view(
                    *old(bytes),
                ).len(),
                Err(e) => spec_decode_value(bytes_view(*old(bytes))) == Err::<
                    (ValueModel, Seq<u8>),
                    ScanError,
                >(e),
            },
    ;
}

impl DataTypeFrom for DataType {
    fn from_bytes(bytes: &mut bytes::Bytes) -> (r: Result<DataType, ScanError>)
        decreases bytes_view(*old(bytes)).len(), 1nat,
    {
        decode_value(bytes)
    }
}

/// The values decoded from one read buffer: as many whole values as it
/// holds, stopping quietly at the zero padding that fills its tail.
pub open spec fn spec_parse_buffer(s: Seq<u8>) -> Result<Seq<ValueModel>, ScanError>
    decreases s.len(),
    via spec_parse_buffer_decreases
{
    if s.len() == 0 {
        Ok(Seq::empty())
    } else {
        match spec_decode_value(s) {
            Ok((v, r)) => match spec_parse_buffer(cap_rest(s.drop_last(), r)) {
                Ok(vals) => Ok(seq![v] + vals),
                Err(e) => Err(e),
            },
            Err(ScanError::StreamEnded) => Ok(Seq::empty()),
            Err(e) => Err(e),
        }
    }
}

#[via_fn]
proof fn spec_parse_buffer_decreases(s: Seq<u8>) {
}

/// What one value leaves behind is strictly shorter than the input.
pub proof fn lemma_decode_value_rest(s: Seq<u8>)
    ensures
        spec_decode_value(s) matches Ok((v, r)) ==> r.len() < s.len(),
{
    if s.len() > 0 {
        lemma_scan_rest_len(s.drop_first(), Seq::empty(), false);
        match scan_scalar(s.drop_first(), Seq::empty(), false) {
            ScanOutcome::Done { content, rest } => {
                match spec_parse_isize(content) {
                    Some(n) => {
                        let cnt = if n < 0 {
                            0nat
                        } else {
                            n as nat
                        };
                        match spec_decode(rest, cnt) {
                            Ok((vals, r2)) => {
                                lemma_cons_zero(
                                    ValueModel::Array { items: vals },
                                    cap_rest(rest, r2),
                                );
                                if n == -1 {
                                    lemma_cons_zero(ValueModel::NullBulkString, rest);
                                }
                                lemma_cons_zero(ValueModel::Integer { number: n }, rest);
                                if n >= 0 && rest.len() >= n {
                                    let after = rest.skip(n);
                                    if after.len() >= 2 && after[0] == CR && after[1] == LF {
                                        lemma_cons_zero(
                                            ValueModel::BulkString { string: rest.take(n) },
                                            after.skip(2),
                                        );
                                    }
                                }
                            },
                            Err(_) => {
                                if n == -1 {
                                    lemma_cons_zero(ValueModel::NullBulkString, rest);
                                }
                                lemma_cons_zero(ValueModel::Integer { number: n }, rest);
                                if n >= 0 && rest.len() >= n {
                                    let after = rest.skip(n);
                                    if after.len() >= 2 && after[0] == CR && after[1] == LF {
                                        lemma_cons_zero(
                                            ValueModel::BulkString { string: rest.take(n) },
                                            after.skip(2),
                                        );
                                    }
                                }
                            },
                        }
                    },
                    None => {},
                }
                lemma_cons_zero(ValueModel::SimpleString { string: content }, rest);
                lemma_cons_zero(ValueModel::Error { type_: Seq::empty(), error: content }, rest);
            },
            ScanOutcome::Incomplete { .. } => {},
        }
    }
}

/// Decodes as many whole values as the buffer holds, stopping quietly at
/// the zero padding that fills the tail of a fixed-size read buffer.
#[verifier::loop_isolation(false)]
pub fn parse_buffer(bytes: &mut bytes::Bytes) -> (r: Result<Vec<DataType>, ScanError>)
    ensures
        match r {
            Ok(items) => spec_parse_buffer(bytes_view(*old(bytes))) == Ok::<
                Seq<ValueModel>,
                ScanError,
            >(DataType::model_seq(items@)),
            Err(e) => spec_parse_buffer(bytes_view(*old(bytes))) == Err::<
                Seq<ValueModel>,
                ScanError,
            >(e),
        },
{
    let ghost v0 = bytes_view(*old(bytes));
    let mut parsed: Vec<DataType> = Vec::new();
    proof {
        assert(DataType::model_seq(parsed@) =~= Seq::<ValueModel>::empty());
        match spec_parse_buffer(v0) {
            Ok(vals) => {
                assert(DataType::model_seq(parsed@) + vals =~= vals);
            },
            Err(_) => {},
        }
    }
    loop
        invariant
            bytes_view(*bytes).len() <= v0.len(),
            match spec_parse_buffer(bytes_view(*bytes)) {
                Ok(vals) => spec_parse_buffer(v0) == Ok::<Seq<ValueModel>, ScanError>(
                    DataType::model_seq(parsed@) + vals,
                ),
                Err(e) => spec_parse_buffer(v0) == Err::<Seq<ValueModel>, ScanError>(e),
            },
        decreases bytes_view(*bytes).len(),
    {
        if bytes_len(bytes) == 0 {
            proof {
                match spec_parse_buffer(bytes_view(*bytes)) {
                    Ok(vals) => {
                        assert(DataType::model_seq(parsed@) + vals =~= DataType::model_seq(
                            parsed@,
                        ));
                    },
                    Err(_) => {},
                }
            }
            return Ok(parsed);
        }
        let ghost view_pre = bytes_view(*bytes);
        proof {
            lemma_decode_value_rest(view_pre);
        }
        let item = match DataType::from_bytes(bytes) {
            Ok(v) => v,
            Err(e) => {
                match e {
                    ScanError::StreamEnded => {
                        proof {
                            assert(DataType::model_seq(parsed@) + Seq::<ValueModel>::empty()
                                =~= DataType::model_seq(parsed@));
                        }
                        return Ok(parsed);
                    },
                    _ => {
                        return Err(e);
                    },
                }
            },
        };
        proof {
            let pre_items = parsed@;
            let view_post = bytes_view(*bytes);
            assert(cap_rest(view_pre.drop_last(), view_post) == view_post);
            assert(pre_items.push(item).drop_last() =~= pre_items);
            assert(DataType::model_seq(pre_items.push(item)) == DataType::model_seq(
                pre_items,
            ).push(item@));
            match spec_parse_buffer(view_post) {
                Ok(vals2) => {
                    assert(DataType::model_seq(pre_items.push(item)) + vals2 =~=
                        DataType::model_seq(pre_items) + (seq![item@] + vals2));
                },
                Err(_) => {},
            }
        }
        parsed.push(item);
    }
}

/// Round trip, decoding after encoding: a value the wire can carry
/// faithfully is recovered exactly from its own encoding, whatever
/// follows it.
pub proof fn lemma_decode_of_encode(v: ValueModel, rest: Seq<u8>)
    requires
        wire_ok(v),
    ensures
        spec_decode_value(spec_encode(v) + rest) == Ok::<(ValueModel, Seq<u8>), ScanError>(
            (v, rest),
        ),
    decreases v,
{
    let s = spec_encode(v) + rest;
    match v {
        ValueModel::SimpleString { string } => {
            assert(s.first() == TAG_SIMPLE);
            assert(s.drop_first() =~= string + seq![CR, LF] + rest);
            lemma_scan_content(string, rest, Seq::empty(), false);
            assert(Seq::<u8>::empty() + Seq::<u8>::empty() + string =~= string);
            lemma_cons_zero(ValueModel::SimpleString { string }, rest);
        },
        ValueModel::Error { type_, error } => {
            assert(s.first() == TAG_ERROR);
            assert(s.drop_first() =~= error + seq![CR, LF] + rest);
            lemma_scan_content(error, rest, Seq::empty(), false);
            assert(Seq::<u8>::empty() + Seq::<u8>::empty() + error =~= error);
            assert(type_ =~= Seq::<u8>::empty());
            lemma_cons_zero(ValueModel::Error { type_: Seq::empty(), error }, rest);
        },
        ValueModel::Integer { number } => {
            assert(s.first() == TAG_INTEGER);
            assert(s.drop_first() =~= spec_dec_int(number) + seq![CR, LF] + rest);
            lemma_dec_int_bytes(number);
            lemma_scan_content(spec_dec_int(number), rest, Seq::empty(), false);
            assert(Seq::<u8>::empty() + Seq::<u8>::empty() + spec_dec_int(number) =~= spec_dec_int(
                number,
            ));
            lemma_parse_of_format(number);
            lemma_cons_zero(ValueModel::Integer { number }, rest);
        },
        ValueModel::NullBulkString => {
            assert(s.first() == TAG_BULK);
            let content = seq![TAG_ERROR, 49u8];
            assert(s.drop_first() =~= content + seq![CR, LF] + rest);
            assert(no_crlf(content));
            lemma_scan_content(content, rest, Seq::empty(), false);
            assert(Seq::<u8>::empty() + Seq::<u8>::empty() + content =~= content);
            assert(spec_parse_isize(content) == Some(-1int)) by {
                assert(content.drop_first() =~= seq![49u8]);
                assert(crate::numeric::all_digits(seq![49u8]));
                assert(crate::numeric::digits_val(seq![49u8]) == 1) by {
                    assert(seq![49u8].drop_last() =~= Seq::<u8>::empty());
                    assert(crate::numeric::digits_val(Seq::<u8>::empty()) == 0);
                }
            }
            lemma_cons_zero(ValueModel::NullBulkString, rest);
        },
        ValueModel::BulkString { string } => {
            assert(s.first() == TAG_BULK);
            let len = string.len() as int;
            let dec = spec_dec_nat(string.len());
            assert(dec == spec_dec_int(len));
            let tail = string + seq![CR, LF] + rest;
            assert(s.drop_first() =~= dec + seq![CR, LF] + tail);
            lemma_dec_int_bytes(len);
            lemma_scan_content(dec, tail, Seq::empty(), false);
            assert(Seq::<u8>::empty() + Seq::<u8>::empty() + dec =~= dec);
            lemma_parse_of_format(len);
            assert(tail.len() >= len);
            assert(tail.take(len) =~= string);
            let after = tail.skip(len);
            assert(after =~= seq![CR, LF] + rest);
            assert(after[0] == CR && after[1] == LF);
            assert(after.skip(2) =~= rest);
            lemma_cons_zero(ValueModel::BulkString { string }, rest);
        },
        ValueModel::Array { items } => {
            assert(s.first() == TAG_ARRAY);
            let len = items.len() as int;
            let dec = spec_dec_nat(items.len());
            assert(dec == spec_dec_int(len));
            let tail = spec_encode_items(items) + rest;
            assert(s.drop_first() =~= dec + seq![CR, LF] + tail);
            lemma_dec_int_bytes(len);
            lemma_scan_content(dec, tail, Seq::empty(), false);
            assert(Seq::<u8>::empty() + Seq::<u8>::empty() + dec =~= dec);
            lemma_parse_of_format(len);
            lemma_decode_of_encode_items(items, rest);
            assert(cap_rest(tail, rest) == rest);
            lemma_cons_zero(ValueModel::Array { items }, rest);
        },
    }
}

/// Round trip for the elements of an array: decoding as many values as
/// were encoded, one after the other, recovers them all.
pub proof fn lemma_decode_of_encode_items(items: Seq<ValueModel>, rest: Seq<u8>)
    requires
        forall|i: int| 0 <= i < items.len() ==> wire_ok(#[trigger] items[i]),
    ensures
        spec_decode(spec_encode_items(items) + rest, items.len() as nat) == Ok::<
            (Seq<ValueModel>, Seq<u8>),
            ScanError,
        >((items, rest)),
    decreases items,
{
    if items.len() == 0 {
        assert(spec_encode_items(items) + rest =~= rest);
        assert(items =~= Seq::<ValueModel>::empty());
    } else {
        lemma_encode_items_first(items);
        let first = items.first();
        let tail = items.drop_first();
        let tail_bytes = spec_encode_items(tail) + rest;
        let s = spec_encode_items(items) + rest;
        assert(s =~= spec_encode(first) + tail_bytes);
        lemma_decode_of_encode(first, tail_bytes);
        lemma_decode_step(s, items.len() as nat);
        assert(forall|i: int| 0 <= i < tail.len() ==> wire_ok(#[trigger] tail[i])) by {
            assert(forall|i: int| 0 <= i < tail.len() ==> tail[i] == items[i + 1]);
        }
        lemma_decode_of_encode_items(tail, rest);
        assert(seq![first] + tail =~= items);
    }
}

/// Round trip, encoding after decoding: a valid wire byte sequence
/// decodes completely, to a value whose encoding is that sequence again.
pub proof fn lemma_encode_of_decode(b: Seq<u8>)
    requires
        valid_wire(b),
    ensures
        match spec_decode_value(b) {
            Ok((v, rest)) => rest == Seq::<u8>::empty() && spec_encode(v) == b && wire_ok(v),
            Err(_) => false,
        },
{
    let v = choose|v: ValueModel| #[trigger] wire_ok(v) && b == spec_encode(v);
    lemma_decode_of_encode(v, Seq::empty());
    assert(spec_encode(v) + Seq::<u8>::empty() =~= b);
}

/// Decodes values from a byte stream one fixed-size chunk at a time.
/// A value whose encoding straddles a chunk boundary is not recovered;
/// the streaming decoder lifts that limit.
pub struct Decoder<'a, R> {
    stream: &'a mut R,
}

impl<'a, R> Decoder<'a, R> {
    /// Wraps a byte stream.
    pub fn new(stream: &'a mut R) -> Self {
        Decoder { stream }
    }

    /// The wrapped stream, for the reader that drives the decoding.
    pub fn stream(&mut self) -> &mut R {
        self.stream
    }
}

} // verus!
