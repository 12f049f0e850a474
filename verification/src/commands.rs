use crate::bytes_ext::{bytes_from_vec, bytes_to_vec, bytes_view};
use crate::db::{spec_is_expired, DBValue, EntryModel, Store};
use crate::numeric::{parse_isize, spec_parse_isize};
use crate::protocol::{lemma_model_seq_all, DataType, ValueModel};
use vstd::prelude::*;

verus! {

/// The failures of turning a decoded value into a command.
#[derive(Debug, PartialEq, Eq)]
pub enum ParseError {
    /// The request array held no elements.
    EmptyArray,
    /// The command name matched nothing known; carries the name.
    UnkownCommand(Vec<u8>),
    /// The first element was neither a simple string nor a bulk string.
    InvalidFirstAttribute,
    /// The request value was not an array.
    InvalidCommandDataType,
    /// An argument was missing, of the wrong kind, or not a well-formed
    /// non-negative delay.
    BadArguments,
    /// An option token other than `PX`; carries the token and the command.
    UnsupportedOption(Vec<u8>, Vec<u8>),
}

/// The model of a parse error: payloads as byte sequences.
pub enum ParseErrorModel {
    EmptyArray,
    UnkownCommand(Seq<u8>),
    InvalidFirstAttribute,
    InvalidCommandDataType,
    BadArguments,
    UnsupportedOption(Seq<u8>, Seq<u8>),
}

impl View for ParseError {
    type V = ParseErrorModel;

    open spec fn view(&self) -> ParseErrorModel {
        match self {
            ParseError::EmptyArray => ParseErrorModel::EmptyArray,
            ParseError::UnkownCommand(name) => ParseErrorModel::UnkownCommand(name@),
            ParseError::InvalidFirstAttribute => ParseErrorModel::InvalidFirstAttribute,
            ParseError::InvalidCommandDataType => ParseErrorModel::InvalidCommandDataType,
            ParseError::BadArguments => ParseErrorModel::BadArguments,
            ParseError::UnsupportedOption(opt, cmd) => ParseErrorModel::UnsupportedOption(
                opt@,
                cmd@,
            ),
        }
    }
}

impl ParseError {
    /// The message that describes this error.
    pub fn message(&self) -> (r: &'static str) {
        match self {
            ParseError::EmptyArray => "empty array",
            ParseError::UnkownCommand(_) => "unkown command",
            ParseError::InvalidFirstAttribute => "invalid first attribute for command. should be SimpleString or BulkString.",
            ParseError::InvalidCommandDataType => "invalid command datatype. datatype should be array.",
            ParseError::BadArguments => "invalid format for command arguments.",
            ParseError::UnsupportedOption(_, _) => "option not supported",
        }
    }
}

/// A validated request, built once from a decoded array and then
/// executed against the keyspace.
#[derive(Debug)]
pub enum Commands {
    /// Responds with PONG.
    PING,
    /// Responds with an empty simple string, a stub feature listing.
    COMMAND,
    /// Responds with the received message as a bulk string.
    ECHO { message: Vec<u8> },
    /// Stores `value` under `key`, with an optional expiry delay in
    /// milliseconds (`PX`); zero means the entry never expires. Responds
    /// with the previous unexpired value, or OK.
    SET { key: Vec<u8>, value: bytes::Bytes, expiry: usize },
    /// Responds with the value under `key` as a bulk string, or the null
    /// bulk string when the key is unset or expired.
    GET { key: Vec<u8> },
}

/// The model of a command: payloads as byte sequences.
pub enum CommandModel {
    PING,
    COMMAND,
    ECHO { message: Seq<u8> },
    SET { key: Seq<u8>, value: Seq<u8>, expiry: usize },
    GET { key: Seq<u8> },
}

impl View for Commands {
    type V = CommandModel;

    open spec fn view(&self) -> CommandModel {
        match self {
            Commands::PING => CommandModel::PING,
            Commands::COMMAND => CommandModel::COMMAND,
            Commands::ECHO { message } => CommandModel::ECHO { message: message@ },
            Commands::SET { key, value, expiry } => CommandModel::SET {
                key: key@,
                value: bytes_view(*value),
                expiry: *expiry,
            },
            Commands::GET { key } => CommandModel::GET { key: key@ },
        }
    }
}

/// ASCII upper case, byte for byte; bytes outside `a`..`z` are unchanged.
pub open spec fn spec_upper(s: Seq<u8>) -> Seq<u8> {
    s.map_values(
        |b: u8|
            if 97 <= b <= 122 {
                (b - 32) as u8
            } else {
                b
            },
    )
}

/// The text of a string-like element: simple and bulk strings both carry
/// command words and arguments.
pub open spec fn spec_string_arg(v: ValueModel) -> Option<Seq<u8>> {
    match v {
        ValueModel::SimpleString { string } => Some(string),
        ValueModel::BulkString { string } => Some(string),
        _ => None,
    }
}

/// The command that a decoded request array denotes, or the validation
/// error: the first element names the command case-insensitively; PING
/// and COMMAND take no arguments; ECHO and GET take exactly one
/// string-like argument; SET takes a key and a value, optionally followed
/// by the token `PX` and a non-negative millisecond delay.
pub open spec fn spec_from_vec(items: Seq<ValueModel>) -> Result<CommandModel, ParseErrorModel> {
    if items.len() == 0 {
        Err(ParseErrorModel::EmptyArray)
    } else {
        match spec_string_arg(items[0]) {
            None => Err(ParseErrorModel::InvalidFirstAttribute),
            Some(name) => {
                let upper = spec_upper(name);
                if upper == seq![80u8, 73u8, 78u8, 71u8] {
                    Ok(CommandModel::PING)
                } else if upper == seq![67u8, 79u8, 77u8, 77u8, 65u8, 78u8, 68u8] {
                    Ok(CommandModel::COMMAND)
                } else if upper == seq![69u8, 67u8, 72u8, 79u8] {
                    if items.len() == 2 && spec_string_arg(items[1]) is Some {
                        Ok(CommandModel::ECHO { message: spec_string_arg(items[1])->0 })
                    } else {
                        Err(ParseErrorModel::BadArguments)
                    }
                } else if upper == seq![71u8, 69u8, 84u8] {
                    if items.len() == 2 && spec_string_arg(items[1]) is Some {
                        Ok(CommandModel::GET { key: spec_string_arg(items[1])->0 })
                    } else {
                        Err(ParseErrorModel::BadArguments)
                    }
                } else if upper == seq![83u8, 69u8, 84u8] {
                    if items.len() < 3 || spec_string_arg(items[1]) is None || spec_string_arg(
                        items[2],
                    ) is None {
                        Err(ParseErrorModel::BadArguments)
                    } else {
                        let key = spec_string_arg(items[1])->0;
                        let value = spec_string_arg(items[2])->0;
                        if items.len() == 3 {
                            Ok(CommandModel::SET { key, value, expiry: 0 })
                        } else {
                            match spec_string_arg(items[3]) {
                                None => Err(ParseErrorModel::BadArguments),
                                Some(opt) => {
                                    if spec_upper(opt) != seq![80u8, 88u8] {
                                        Err(
                                            ParseErrorModel::UnsupportedOption(
                                                opt,
                                                seq![83u8, 69u8, 84u8],
                                            ),
                                        )
                                    } else if items.len() < 5 || spec_string_arg(items[4]) is None {
                                        Err(ParseErrorModel::BadArguments)
                                    } else {
                                        match spec_parse_isize(spec_string_arg(items[4])->0) {
                                            Some(n) => if n >= 0 {
                                                Ok(
                                                    CommandModel::SET {
                                                        key,
                                                        value,
                                                        expiry: n as usize,
                                                    },
                                                )
                                            } else {
                                                Err(ParseErrorModel::BadArguments)
                                            },
                                            None => Err(ParseErrorModel::BadArguments),
                                        }
                                    }
                                },
                            }
                        }
                    }
                } else {
                    Err(ParseErrorModel::UnkownCommand(name))
                }
            },
        }
    }
}

/// The command that a whole decoded request denotes: the request must be
/// an array.
pub open spec fn spec_parse_command(v: ValueModel) -> Result<CommandModel, ParseErrorModel> {
    match v {
        ValueModel::Array { items } => spec_from_vec(items),
        _ => Err(ParseErrorModel::InvalidCommandDataType),
    }
}

/// ASCII upper case of a byte vector.
#[verifier::loop_isolation(false)]
fn to_upper(v: &Vec<u8>) -> (r: Vec<u8>)
    ensures
        r@ == spec_upper(v@),
{
    let mut out: Vec<u8> = Vec::new();
    let mut i: usize = 0;
    while i < v.len()
        invariant
            i <= v@.len(),
            out@.len() == i,
            forall|j: int|
                0 <= j < i ==> out@[j] == (if 97 <= v@[j] <= 122 {
                    (v@[j] - 32) as u8
                } else {
                    v@[j]
                }),
        decreases v@.len() - i,
    {
        let b = v[i];
        if 97 <= b && b <= 122 {
            out.push(b - 32);
        } else {
            out.push(b);
        }
        i = i + 1;
    }
    proof {
        assert(out@ =~= spec_upper(v@));
    }
    out
}

/// Whether a byte vector holds exactly the given word.
#[verifier::loop_isolation(false)]
fn matches_word(v: &Vec<u8>, word: &[u8]) -> (r: bool)
    ensures
        r == (v@ == word@),
{
    if v.len() != word.len() {
        proof {
            assert(v@ != word@);
        }
        return false;
    }
    let mut i: usize = 0;
    while i < v.len()
        invariant
            i <= v@.len(),
            forall|j: int| 0 <= j < i ==> v@[j] == word@[j],
        decreases v@.len() - i,
    {
        if v[i] != word[i] {
            return false;
        }
        i = i + 1;
    }
    proof {
        assert(v@ =~= word@);
    }
    true
}

/// The string-like content of a request element, if it has one.
fn get_string_arg(item: &DataType) -> (r: Option<&Vec<u8>>)
    ensures
        match r {
            Some(s) => spec_string_arg(item@) == Some(s@),
            None => spec_string_arg(item@) is None,
        },
{
    match item {
        DataType::SimpleString { string } => Some(string),
        DataType::BulkString { string } => Some(string),
        _ => None,
    }
}

impl Commands {
    /// Builds a command from the elements of a decoded request array,
    /// validating the command word, the arity, and the argument kinds.
    pub fn from_vec(array: Vec<DataType>) -> (r: Result<Commands, ParseError>)
        ensures
            match r {
                Ok(c) => spec_from_vec(DataType::model_seq(array@)) == Ok::<
                    CommandModel,
                    ParseErrorModel,
                >(c@),
                Err(e) => spec_from_vec(DataType::model_seq(array@)) == Err::<
                    CommandModel,
                    ParseErrorModel,
                >(e@),
            },
    {
        proof {
            lemma_model_seq_all(array@);
        }
        if array.len() == 0 {
            return Err(ParseError::EmptyArray);
        }
        let name = match get_string_arg(&array[0]) {
            Some(s) => s,
            None => {
                return Err(ParseError::InvalidFirstAttribute);
            },
        };
        let upper = to_upper(name);
        if matches_word(&upper, &[80, 73, 78, 71]) {
            Ok(Commands::PING)
        } else if matches_word(&upper, &[67, 79, 77, 77, 65, 78, 68]) {
            Ok(Commands::COMMAND)
        } else if matches_word(&upper, &[69, 67, 72, 79]) {
            if array.len() != 2 {
                return Err(ParseError::BadArguments);
            }
            match get_string_arg(&array[1]) {
                Some(message) => {
                    let payload = message.clone();
                    proof {
                        assert(payload@ =~= message@);
                    }
                    Ok(Commands::ECHO { message: payload })
                },
                None => Err(ParseError::BadArguments),
            }
        } else if matches_word(&upper, &[71, 69, 84]) {
            if array.len() != 2 {
                return Err(ParseError::BadArguments);
            }
            match get_string_arg(&array[1]) {
                Some(key) => {
                    let payload = key.clone();
                    proof {
                        assert(payload@ =~= key@);
                    }
                    Ok(Commands::GET { key: payload })
                },
                None => Err(ParseError::BadArguments),
            }
        } else if matches_word(&upper, &[83, 69, 84]) {
            if array.len() < 3 {
                return Err(ParseError::BadArguments);
            }
            let key = match get_string_arg(&array[1]) {
                Some(s) => s,
                None => {
                    return Err(ParseError::BadArguments);
                },
            };
            let value = match get_string_arg(&array[2]) {
                Some(s) => s,
                None => {
                    return Err(ParseError::BadArguments);
                },
            };
            let mut msdelay: usize = 0;
            if array.len() > 3 {
                let opt = match get_string_arg(&array[3]) {
                    Some(s) => s,
                    None => {
                        return Err(ParseError::BadArguments);
                    },
                };
                let opt_upper = to_upper(opt);
                if !matches_word(&opt_upper, &[80, 88]) {
                    let opt_payload = opt.clone();
                    let mut set_word: Vec<u8> = Vec::new();
                    set_word.push(83);
                    set_word.push(69);
                    set_word.push(84);
                    proof {
                        assert(opt_payload@ =~= opt@);
                        assert(set_word@ =~= seq![83u8, 69u8, 84u8]);
                    }
                    return Err(ParseError::UnsupportedOption(opt_payload, set_word));
                }
                if array.len() < 5 {
                    return Err(ParseError::BadArguments);
                }
                let delay = match get_string_arg(&array[4]) {
                    Some(s) => s,
                    None => {
                        return Err(ParseError::BadArguments);
                    },
                };
                match parse_isize(delay.as_slice()) {
                    Some(n) => {
                        if n < 0 {
                            return Err(ParseError::BadArguments);
                        }
                        msdelay = n as usize;
                    },
                    None => {
                        return Err(ParseError::BadArguments);
                    },
                }
            }
            let key_payload = key.clone();
            let value_payload = value.clone();
            proof {
                assert(key_payload@ =~= key@);
                assert(value_payload@ =~= value@);
            }
            Ok(
                Commands::SET {
                    key: key_payload,
                    value: bytes_from_vec(value_payload),
                    expiry: msdelay,
                },
            )
        } else {
            let payload = name.clone();
            proof {
                assert(payload@ =~= name@);
            }
            Err(ParseError::UnkownCommand(payload))
        }
    }

    /// Runs the command against the keyspace at the given time, returning
    /// the response value. `SET` is the only command that writes.
    pub fn execute(&self, map: &mut Store, now: usize) -> (r: DataType)
        requires
            old(map).wf(),
            self@ matches CommandModel::SET { expiry, .. } ==> (expiry == 0 || expiry + now
                <= usize::MAX),
        ensures
            final(map).wf(),
            (final(map)@, r@) == spec_execute(self@, old(map)@, now),
    {
        match self {
            Commands::PING => {
                let mut pong: Vec<u8> = Vec::new();
                pong.push(80);
                pong.push(79);
                pong.push(78);
                pong.push(71);
                proof {
                    assert(pong@ =~= seq![80u8, 79u8, 78u8, 71u8]);
                }
                DataType::SimpleString { string: pong }
            },
            Commands::COMMAND => {
                let empty: Vec<u8> = Vec::new();
                proof {
                    assert(empty@ =~= Seq::<u8>::empty());
                }
                DataType::SimpleString { string: empty }
            },
            Commands::ECHO { message } => {
                let payload = message.clone();
                proof {
                    assert(payload@ =~= message@);
                }
                DataType::BulkString { string: payload }
            },
            Commands::SET { key, value, expiry } => {
                let new_value = DBValue::with_expiration(value.clone(), *expiry, now);
                let key_payload = key.clone();
                proof {
                    assert(key_payload@ =~= key@);
                }
                let old_value = map.insert(key_payload, new_value);
                match old_value {
                    Some(v) => {
                        if !v.is_expired(now) {
                            DataType::BulkString { string: bytes_to_vec(&v.value) }
                        } else {
                            let mut ok: Vec<u8> = Vec::new();
                            ok.push(79);
                            ok.push(75);
                            proof {
                                assert(ok@ =~= seq![79u8, 75u8]);
                            }
                            DataType::SimpleString { string: ok }
                        }
                    },
                    None => {
                        let mut ok: Vec<u8> = Vec::new();
                        ok.push(79);
                        ok.push(75);
                        proof {
                            assert(ok@ =~= seq![79u8, 75u8]);
                        }
                        DataType::SimpleString { string: ok }
                    },
                }
            },
            Commands::GET { key } => {
                match map.get(key) {
                    Some(v) => {
                        if !v.is_expired(now) {
                            DataType::BulkString { string: bytes_to_vec(&v.value) }
                        } else {
                            DataType::NullBulkString
                        }
                    },
                    None => DataType::NullBulkString,
                }
            },
        }
    }
}

/// What a command does to the keyspace and what it answers, at a given
/// time: PING answers PONG; COMMAND answers the empty simple string; ECHO
/// answers its message as a bulk string; GET answers the unexpired entry
/// under the key, or the null bulk string; SET writes its entry (a
/// positive delay becomes the absolute time `now + expiry`) and answers
/// the previous unexpired value, or OK.
pub open spec fn spec_execute(c: CommandModel, m: Map<Seq<u8>, EntryModel>, now: usize) -> (
    Map<Seq<u8>, EntryModel>,
    ValueModel,
) {
    match c {
        CommandModel::PING => (
            m,
            ValueModel::SimpleString { string: seq![80u8, 79u8, 78u8, 71u8] },
        ),
        CommandModel::COMMAND => (m, ValueModel::SimpleString { string: Seq::empty() }),
        CommandModel::ECHO { message } => (m, ValueModel::BulkString { string: message }),
        CommandModel::GET { key } => (
            m,
            if m.contains_key(key) && !spec_is_expired(m[key], now) {
                ValueModel::BulkString { string: m[key].value }
            } else {
                ValueModel::NullBulkString
            },
        ),
        CommandModel::SET { key, value, expiry } => {
            let entry = EntryModel {
                value,
                expiration: if expiry > 0 {
                    (now + expiry) as usize
                } else {
                    0
                },
            };
            let resp = if m.contains_key(key) && !spec_is_expired(m[key], now) {
                ValueModel::BulkString { string: m[key].value }
            } else {
                ValueModel::SimpleString { string: seq![79u8, 75u8] }
            };
            (m.insert(key, entry), resp)
        },
    }
}

/// Turns a whole decoded request into a command: it must be an array.
pub fn parse_command(data: DataType) -> (r: Result<Commands, ParseError>)
    ensures
        match r {
            Ok(c) => spec_parse_command(data@) == Ok::<CommandModel, ParseErrorModel>(c@),
            Err(e) => spec_parse_command(data@) == Err::<CommandModel, ParseErrorModel>(e@),
        },
{
    match data {
        DataType::Array { items } => Commands::from_vec(items),
        _ => Err(ParseError::InvalidCommandDataType),
    }
}

/// A key written without an expiry never reports expired: at every later
/// time, reading it back yields the stored value.
pub proof fn lemma_set_without_expiry_lasts(
    key: Seq<u8>,
    value: Seq<u8>,
    m: Map<Seq<u8>, EntryModel>,
    now: usize,
    t: usize,
)
    ensures
        ({
            let m2 = spec_execute(CommandModel::SET { key, value, expiry: 0 }, m, now).0;
            &&& m2.contains_key(key)
            &&& !spec_is_expired(m2[key], t)
            &&& spec_execute(CommandModel::GET { key }, m2, t).1 == (ValueModel::BulkString {
                string: value,
            })
        }),
{
}

/// A key written with a positive expiry delay reads back as its value
/// strictly before `now + delay` and as the null bulk string from that
/// time on.
pub proof fn lemma_set_with_expiry(
    key: Seq<u8>,
    value: Seq<u8>,
    delay: usize,
    m: Map<Seq<u8>, EntryModel>,
    now: usize,
    t: usize,
)
    requires
        delay > 0,
        now + delay <= usize::MAX,
    ensures
        ({
            let m2 = spec_execute(CommandModel::SET { key, value, expiry: delay }, m, now).0;
            spec_execute(CommandModel::GET { key }, m2, t).1 == (if t < now + delay {
                ValueModel::BulkString { string: value }
            } else {
                ValueModel::NullBulkString
            })
        }),
{
}

/// Writing a key twice: the second write answers the first value while
/// that entry is unexpired, and OK once it has expired.
pub proof fn lemma_set_previous_value(
    key: Seq<u8>,
    v1: Seq<u8>,
    v2: Seq<u8>,
    e1: usize,
    e2: usize,
    m: Map<Seq<u8>, EntryModel>,
    now1: usize,
    now2: usize,
)
    requires
        e1 > 0 ==> now1 + e1 <= usize::MAX,
    ensures
        ({
            let m2 = spec_execute(CommandModel::SET { key, value: v1, expiry: e1 }, m, now1).0;
            let resp = spec_execute(CommandModel::SET { key, value: v2, expiry: e2 }, m2, now2).1;
            resp == (if e1 == 0 || now2 < now1 + e1 {
                ValueModel::BulkString { string: v1 }
            } else {
                ValueModel::SimpleString { string: seq![79u8, 75u8] }
            })
        }),
{
}

} // verus!
