pub mod v1;
pub mod v2;

use crate::numeric::{is_ascii_digit, spec_dec_int};
use crate::protocol::{spec_encode, ValueModel, CR, LF};
use vstd::prelude::*;

verus! {

/// The outcome of scanning a scalar line for its closing CRLF.
pub enum ScanOutcome {
    /// A CRLF was found: `content` is everything committed before it and
    /// `rest` everything after it.
    Done { content: Seq<u8>, rest: Seq<u8> },
    /// The input ran out first; `content` is what had been committed
    /// (a trailing CR still waiting for its LF is dropped).
    Incomplete { content: Seq<u8> },
}

/// Scans `s` for the CRLF that closes a scalar, byte by byte: a CR makes
/// the scan pend; a pending CR followed by LF closes the scalar; a pending
/// CR followed by another CR commits the first CR as literal content and
/// keeps pending; a pending CR followed by anything else commits both
/// bytes as literal content. `acc` holds the content committed so far.
pub open spec fn scan_scalar(s: Seq<u8>, acc: Seq<u8>, pending: bool) -> ScanOutcome
    decreases s.len(),
{
    if s.len() == 0 {
        ScanOutcome::Incomplete { content: acc }
    } else {
        let b = s.first();
        let rest = s.drop_first();
        if pending {
            if b == LF {
                ScanOutcome::Done { content: acc, rest }
            } else if b == CR {
                scan_scalar(rest, acc.push(CR), true)
            } else {
                scan_scalar(rest, acc.push(CR).push(b), false)
            }
        } else {
            if b == CR {
                scan_scalar(rest, acc, true)
            } else {
                scan_scalar(rest, acc.push(b), false)
            }
        }
    }
}

/// `s` nowhere holds a CR immediately followed by an LF.
pub open spec fn no_crlf(s: Seq<u8>) -> bool {
    forall|i: int| 0 <= i < s.len() - 1 ==> !(#[trigger] s[i] == CR && s[i + 1] == LF)
}

/// When a scan finds its CRLF, what remains is strictly shorter than
/// what was scanned.
pub proof fn lemma_scan_rest_len(s: Seq<u8>, acc: Seq<u8>, pending: bool)
    ensures
        scan_scalar(s, acc, pending) matches ScanOutcome::Done { rest, .. } ==> rest.len()
            < s.len(),
    decreases s.len(),
{
    if s.len() > 0 {
        let b = s.first();
        let rest = s.drop_first();
        if pending {
            if b == LF {
            } else if b == CR {
                lemma_scan_rest_len(rest, acc.push(CR), true);
            } else {
                lemma_scan_rest_len(rest, acc.push(CR).push(b), false);
            }
        } else {
            if b == CR {
                lemma_scan_rest_len(rest, acc, true);
            } else {
                lemma_scan_rest_len(rest, acc.push(b), false);
            }
        }
    }
}

/// Scanning content that holds no CRLF, closed by a CRLF, commits exactly
/// that content and stops exactly after the terminator. When the scan
/// starts pending, the CR seen before `content` is committed first, and
/// `content` must then not begin with an LF.
pub proof fn lemma_scan_content(content: Seq<u8>, rest: Seq<u8>, acc: Seq<u8>, pending: bool)
    requires
        no_crlf(content),
        pending ==> (content.len() == 0 || content.first() != LF),
    ensures
        scan_scalar(content + seq![CR, LF] + rest, acc, pending) == (ScanOutcome::Done {
            content: acc + (if pending {
                seq![CR]
            } else {
                Seq::empty()
            }) + content,
            rest,
        }),
    decreases content.len(),
{
    let s = content + seq![CR, LF] + rest;
    if content.len() == 0 {
        assert(s.first() == CR);
        assert(s.drop_first() =~= seq![LF] + rest);
        let s2 = seq![LF] + rest;
        assert(s2.first() == LF);
        assert(s2.drop_first() =~= rest);
        if pending {
            assert(scan_scalar(s2, acc.push(CR), true) == (ScanOutcome::Done {
                content: acc.push(CR),
                rest,
            }));
            assert(acc.push(CR) =~= acc + seq![CR] + content);
        } else {
            assert(scan_scalar(s2, acc, true) == (ScanOutcome::Done { content: acc, rest }));
            assert(acc =~= acc + Seq::<u8>::empty() + content);
        }
    } else {
        let c = content.first();
        let tail = content.drop_first();
        assert(s.first() == c);
        assert(s.drop_first() =~= tail + seq![CR, LF] + rest);
        assert(forall|i: int|
            0 <= i < tail.len() - 1 ==> !(#[trigger] tail[i] == CR && tail[i + 1] == LF)) by {
            assert(forall|i: int|
                0 <= i < tail.len() ==> #[trigger] tail[i] == content[i + 1]);
        }
        if pending {
            if c == CR {
                lemma_scan_content(tail, rest, acc.push(CR), true);
                assert(acc.push(CR) + seq![CR] + tail =~= acc + seq![CR] + content);
            } else {
                lemma_scan_content(tail, rest, acc.push(CR).push(c), false);
                assert(acc.push(CR).push(c) + Seq::<u8>::empty() + tail =~= acc + seq![CR]
                    + content);
            }
        } else {
            if c == CR {
                lemma_scan_content(tail, rest, acc, true);
                assert(acc + seq![CR] + tail =~= acc + Seq::<u8>::empty() + content);
            } else {
                lemma_scan_content(tail, rest, acc.push(c), false);
                assert(acc.push(c) + Seq::<u8>::empty() + tail =~= acc + Seq::<u8>::empty()
                    + content);
            }
        }
    }
}

/// A decimal representation holds only a sign and digits.
pub proof fn lemma_dec_int_bytes(n: int)
    ensures
        forall|i: int|
            0 <= i < spec_dec_int(n).len() ==> (#[trigger] spec_dec_int(n)[i] == 45
                || is_ascii_digit(spec_dec_int(n)[i])),
        no_crlf(spec_dec_int(n)),
        spec_dec_int(n).len() > 0,
{
    if n < 0 {
        crate::numeric::lemma_digits_val_of_digits((-n) as nat);
    } else {
        crate::numeric::lemma_digits_val_of_digits(n as nat);
    }
}

/// A value whose exact encoding the decoder recovers: simple strings and
/// error messages hold no CRLF (the wire could not carry one), error
/// kinds are empty (the decoder never separates a kind from the message),
/// and numbers, payload lengths and array counts lie in the range of the
/// signed size fields.
pub open spec fn wire_ok(v: ValueModel) -> bool
    decreases v,
{
    match v {
        ValueModel::SimpleString { string } => no_crlf(string),
        ValueModel::Error { type_, error } => type_.len() == 0 && no_crlf(error),
        ValueModel::Integer { number } => isize::MIN <= number <= isize::MAX,
        ValueModel::BulkString { string } => string.len() <= isize::MAX,
        ValueModel::NullBulkString => true,
        ValueModel::Array { items } => items.len() <= isize::MAX && (forall|i: int|
            0 <= i < items.len() ==> wire_ok(#[trigger] items[i])),
    }
}

/// A byte sequence the wire format allows: the exact encoding of some
/// faithfully representable value.
pub open spec fn valid_wire(b: Seq<u8>) -> bool {
    exists|v: ValueModel| #[trigger] wire_ok(v) && b == spec_encode(v)
}

/// The two decoders agree: on a valid wire byte sequence the batch
/// decoder and the streaming machine produce the same single value.
pub proof fn lemma_decoders_agree(b: Seq<u8>)
    requires
        valid_wire(b),
    ensures
        match crate::decoders::v1::spec_decode_value(b) {
            Ok((v, rest)) => rest == Seq::<u8>::empty() && crate::decoders::v2::spec_run(
                crate::decoders::v2::initial_machine(),
                b,
            ) == Ok::<crate::decoders::v2::MachineModel, crate::decoders::v2::DecodeError>(
                crate::decoders::v2::MachineModel {
                    parsed: seq![v],
                    ..crate::decoders::v2::initial_machine()
                },
            ),
            Err(_) => false,
        },
{
    let v = choose|v: ValueModel| #[trigger] wire_ok(v) && b == spec_encode(v);
    crate::decoders::v1::lemma_decode_of_encode(v, Seq::empty());
    assert(spec_encode(v) + Seq::<u8>::empty() =~= b);
    crate::decoders::v2::lemma_stream_decode_of_encode(v);
}

} // verus!
