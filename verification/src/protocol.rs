use crate::bytes_ext::bytes_read_u8;
use crate::numeric::{format_isize, format_usize, spec_dec_int, spec_dec_nat};
use vstd::prelude::*;

verus! {

/// The error of a checked single-byte read: the buffer held nothing.
#[derive(Debug, PartialEq, Eq)]
pub enum ReadError {
    NoBytesLeft,
}

impl ReadError {
    /// The message that describes this error.
    pub fn message(&self) -> (r: &'static str) {
        "no bytes left"
    }
}

/// A checked byte-by-byte read interface over a byte buffer.
pub trait SafeRead {
    /// Reads the next byte, or fails when no bytes are left.
    fn get_u8_safe(&mut self) -> Result<u8, ReadError>;
}

impl SafeRead for bytes::Bytes {
    fn get_u8_safe(&mut self) -> Result<u8, ReadError> {
        match bytes_read_u8(self) {
            Some(b) => Ok(b),
            None => Err(ReadError::NoBytesLeft),
        }
    }
}

/// Wire tag bytes and separators.
pub const TAG_SIMPLE: u8 = 43;

pub const TAG_ERROR: u8 = 45;

pub const TAG_INTEGER: u8 = 58;

pub const TAG_BULK: u8 = 36;

pub const TAG_ARRAY: u8 = 42;

pub const CR: u8 = 13;

pub const LF: u8 = 10;

pub const SPACE: u8 = 32;

pub const DIGIT_ONE: u8 = 49;

/// A value of the wire protocol: a tagged union of simple strings, errors,
/// integers, bulk strings, the null bulk string, and nested arrays.
///
/// String-like payloads are kept as raw bytes; the wire format is byte
/// oriented and length prefixes count bytes.
#[derive(Debug, PartialEq, Eq)]
pub enum DataType {
    SimpleString { string: Vec<u8> },
    Error { type_: Vec<u8>, error: Vec<u8> },
    Integer { number: isize },
    BulkString { string: Vec<u8> },
    NullBulkString,
    Array { items: Vec<DataType> },
}

/// The mathematical model of a `DataType`: byte payloads become sequences
/// and arrays become sequences of models.
pub enum ValueModel {
    SimpleString { string: Seq<u8> },
    Error { type_: Seq<u8>, error: Seq<u8> },
    Integer { number: int },
    BulkString { string: Seq<u8> },
    NullBulkString,
    Array { items: Seq<ValueModel> },
}

impl DataType {
    /// The model of this value.
    pub open spec fn model(self) -> ValueModel
        decreases self,
    {
        match self {
            DataType::SimpleString { string } => ValueModel::SimpleString { string: string@ },
            DataType::Error { type_, error } => ValueModel::Error { type_: type_@, error: error@ },
            DataType::Integer { number } => ValueModel::Integer { number: number as int },
            DataType::BulkString { string } => ValueModel::BulkString { string: string@ },
            DataType::NullBulkString => ValueModel::NullBulkString,
            DataType::Array { items } => ValueModel::Array { items: Self::model_seq(items@) },
        }
    }

    /// The models of a sequence of values, in order.
    pub open spec fn model_seq(items: Seq<DataType>) -> Seq<ValueModel>
        decreases items,
    {
        if items.len() == 0 {
            Seq::empty()
        } else {
            Self::model_seq(items.drop_last()).push(items.last().model())
        }
    }
}

impl View for DataType {
    type V = ValueModel;

    open spec fn view(&self) -> ValueModel {
        self.model()
    }
}

/// A sequence of models has one model per value, in order.
pub proof fn lemma_model_seq_index(items: Seq<DataType>, i: int)
    requires
        0 <= i < items.len(),
    ensures
        DataType::model_seq(items).len() == items.len(),
        DataType::model_seq(items)[i] == items[i].model(),
    decreases items.len(),
{
    lemma_model_seq_len(items);
    if i < items.len() - 1 {
        lemma_model_seq_index(items.drop_last(), i);
    }
}

/// The two facts of `lemma_model_seq_index`, for every index at once.
pub proof fn lemma_model_seq_all(items: Seq<DataType>)
    ensures
        DataType::model_seq(items).len() == items.len(),
        forall|i: int|
            0 <= i < items.len() ==> #[trigger] DataType::model_seq(items)[i] == items[i].model(),
{
    lemma_model_seq_len(items);
    assert forall|i: int|
        0 <= i < items.len() implies #[trigger] DataType::model_seq(items)[i]
        == items[i].model() by {
        lemma_model_seq_index(items, i);
    }
}

/// A sequence of models is as long as the sequence it models.
pub proof fn lemma_model_seq_len(items: Seq<DataType>)
    ensures
        DataType::model_seq(items).len() == items.len(),
    decreases items.len(),
{
    if items.len() > 0 {
        lemma_model_seq_len(items.drop_last());
    }
}

/// The terminator that closes every scalar wire form.
pub open spec fn spec_crlf() -> Seq<u8> {
    seq![CR, LF]
}

/// The exact byte encoding of a value, as the wire format defines it:
/// `+s`, `-m` or `-k m`, `:n`, `$len` then the payload, `$-1` for the
/// null bulk string, each line closed by CRLF, and `*count` followed by
/// the encodings of the elements for arrays.
pub open spec fn spec_encode(v: ValueModel) -> Seq<u8>
    decreases v,
{
    match v {
        ValueModel::SimpleString { string } => seq![TAG_SIMPLE] + string + spec_crlf(),
        ValueModel::Error { type_, error } => seq![TAG_ERROR] + (if type_.len() == 0 {
            error
        } else {
            type_ + seq![SPACE] + error
        }) + spec_crlf(),
        ValueModel::Integer { number } => seq![TAG_INTEGER] + spec_dec_int(number) + spec_crlf(),
        ValueModel::BulkString { string } => seq![TAG_BULK] + spec_dec_nat(string.len())
            + spec_crlf() + string + spec_crlf(),
        ValueModel::NullBulkString => seq![TAG_BULK, TAG_ERROR, DIGIT_ONE, CR, LF],
        ValueModel::Array { items } => seq![TAG_ARRAY] + spec_dec_nat(items.len()) + spec_crlf()
            + spec_encode_items(items),
    }
}

/// The concatenation of the encodings of `items`, in order.
pub open spec fn spec_encode_items(items: Seq<ValueModel>) -> Seq<u8>
    decreases items,
{
    if items.len() == 0 {
        Seq::empty()
    } else {
        spec_encode_items(items.drop_last()) + spec_encode(items.last())
    }
}

/// The concatenated encodings of a non-empty sequence start with the
/// first element's encoding.
pub proof fn lemma_encode_items_first(items: Seq<ValueModel>)
    requires
        items.len() > 0,
    ensures
        spec_encode_items(items) == spec_encode(items.first()) + spec_encode_items(
            items.drop_first(),
        ),
    decreases items.len(),
{
    if items.len() == 1 {
        assert(items.drop_last() =~= Seq::<ValueModel>::empty());
        assert(items.drop_first() =~= Seq::<ValueModel>::empty());
        assert(items.last() == items.first());
        assert(Seq::<u8>::empty() + spec_encode(items.last()) =~= spec_encode(items.first())
            + Seq::<u8>::empty());
    } else {
        let shorter = items.drop_last();
        lemma_encode_items_first(shorter);
        assert(shorter.first() == items.first());
        assert(shorter.drop_first() =~= items.drop_first().drop_last());
        assert(items.drop_first().last() == items.last());
        assert(spec_encode_items(items) == (spec_encode(items.first()) + spec_encode_items(
            items.drop_first().drop_last(),
        )) + spec_encode(items.last()));
        assert((spec_encode(items.first()) + spec_encode_items(items.drop_first().drop_last()))
            + spec_encode(items.last()) =~= spec_encode(items.first()) + (spec_encode_items(
            items.drop_first().drop_last(),
        ) + spec_encode(items.last())));
    }
}

/// Encodes an integer value: `:n` and CRLF.
pub fn encode_integer(number: isize) -> (r: Vec<u8>)
    ensures
        r@ == spec_encode(ValueModel::Integer { number: number as int }),
{
    let mut out: Vec<u8> = Vec::new();
    out.push(TAG_INTEGER);
    let mut digits = format_isize(number);
    out.append(&mut digits);
    out.push(CR);
    out.push(LF);
    assert(out@ =~= seq![TAG_INTEGER] + spec_dec_int(number as int) + spec_crlf());
    out
}

/// Encodes a simple string: `+s` and CRLF.
pub fn encode_simple_string(string: &Vec<u8>) -> (r: Vec<u8>)
    ensures
        r@ == spec_encode(ValueModel::SimpleString { string: string@ }),
{
    let mut out: Vec<u8> = Vec::new();
    out.push(TAG_SIMPLE);
    let mut payload = string.clone();
    assert(payload@ =~= string@);
    out.append(&mut payload);
    out.push(CR);
    out.push(LF);
    assert(out@ =~= seq![TAG_SIMPLE] + string@ + spec_crlf());
    out
}

/// Encodes a bulk string: `$len`, CRLF, the payload bytes, CRLF.
pub fn encode_bulk_string(string: &Vec<u8>) -> (r: Vec<u8>)
    ensures
        r@ == spec_encode(ValueModel::BulkString { string: string@ }),
{
    let mut out: Vec<u8> = Vec::new();
    out.push(TAG_BULK);
    let mut digits = format_usize(string.len());
    out.append(&mut digits);
    out.push(CR);
    out.push(LF);
    let mut payload = string.clone();
    assert(payload@ =~= string@);
    out.append(&mut payload);
    out.push(CR);
    out.push(LF);
    assert(out@ =~= seq![TAG_BULK] + spec_dec_nat(string@.len()) + spec_crlf() + string@
        + spec_crlf());
    out
}

/// Encodes the null bulk string: `$-1` and CRLF.
pub fn encode_null_string() -> (r: Vec<u8>)
    ensures
        r@ == spec_encode(ValueModel::NullBulkString),
{
    let mut out: Vec<u8> = Vec::new();
    out.push(TAG_BULK);
    out.push(TAG_ERROR);
    out.push(DIGIT_ONE);
    out.push(CR);
    out.push(LF);
    assert(out@ =~= seq![TAG_BULK, TAG_ERROR, DIGIT_ONE, CR, LF]);
    out
}

/// Encodes an error: `-m` when the kind is empty, else `-k m`, and CRLF.
pub fn encode_error(type_: &Vec<u8>, error: &Vec<u8>) -> (r: Vec<u8>)
    ensures
        r@ == spec_encode(ValueModel::Error { type_: type_@, error: error@ }),
{
    let mut out: Vec<u8> = Vec::new();
    out.push(TAG_ERROR);
    if type_.len() > 0 {
        let mut kind = type_.clone();
        assert(kind@ =~= type_@);
        out.append(&mut kind);
        out.push(SPACE);
    }
    let mut message = error.clone();
    assert(message@ =~= error@);
    out.append(&mut message);
    out.push(CR);
    out.push(LF);
    proof {
        if type_@.len() == 0 {
            assert(out@ =~= seq![TAG_ERROR] + error@ + spec_crlf());
        } else {
            assert(out@ =~= seq![TAG_ERROR] + (type_@ + seq![SPACE] + error@) + spec_crlf());
        }
    }
    out
}

/// Encodes an array: `*count`, CRLF, then each element's encoding.
pub fn encode_array(items: &Vec<DataType>) -> (r: Vec<u8>)
    ensures
        r@ == spec_encode(ValueModel::Array { items: DataType::model_seq(items@) }),
    decreases items,
{
    let mut out: Vec<u8> = Vec::new();
    out.push(TAG_ARRAY);
    let mut digits = format_usize(items.len());
    out.append(&mut digits);
    out.push(CR);
    out.push(LF);
    proof {
        lemma_model_seq_len(items@);
    }
    let ghost header = seq![TAG_ARRAY] + spec_dec_nat(items@.len()) + spec_crlf();
    assert(out@ =~= header);
    let mut idx: usize = 0;
    while idx < items.len()
        invariant
            idx <= items@.len(),
            out@ == header + spec_encode_items(DataType::model_seq(items@.take(idx as int))),
        decreases items@.len() - idx,
    {
        let mut item_data = items[idx].encode();
        out.append(&mut item_data);
        proof {
            let pre = items@.take(idx as int);
            let post = items@.take(idx + 1);
            assert(post.drop_last() =~= pre);
            assert(post.last() == items@[idx as int]);
            lemma_model_seq_len(post);
            assert(DataType::model_seq(post).drop_last() =~= DataType::model_seq(pre)) by {
                assert(DataType::model_seq(post) == DataType::model_seq(post.drop_last()).push(
                    post.last().model(),
                ));
                lemma_model_seq_len(pre);
            }
            assert(DataType::model_seq(post).last() == items@[idx as int].model());
            assert(spec_encode_items(DataType::model_seq(post)) == spec_encode_items(
                DataType::model_seq(pre),
            ) + spec_encode(items@[idx as int].model()));
        }
        idx = idx + 1;
    }
    assert(items@.take(items@.len() as int) =~= items@);
    out
}

impl DataType {
    /// Encodes this value into its exact wire form.
    pub fn encode(&self) -> (r: Vec<u8>)
        ensures
            r@ == spec_encode(self@),
        decreases *self,
    {
        match self {
            DataType::Integer { number } => encode_integer(*number),
            DataType::SimpleString { string } => encode_simple_string(string),
            DataType::BulkString { string } => encode_bulk_string(string),
            DataType::NullBulkString => encode_null_string(),
            DataType::Error { type_, error } => encode_error(type_, error),
            DataType::Array { items } => encode_array(items),
        }
    }
}

} // verus!
