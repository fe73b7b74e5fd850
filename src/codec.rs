//! The records of the log and their byte encoding.
//!
//! A record is a one-byte tag followed by its string fields. Each field is
//! its UTF-8 length as eight little-endian bytes, then the UTF-8 bytes
//! themselves, so every record is self-delimiting and records can be
//! appended back to back.
use vstd::bytes::*;
use vstd::prelude::*;
use vstd::slice::*;
use vstd::string::*;
use vstd::utf8::*;

verus! {

broadcast use vstd::seq_lib::group_seq_properties;

/// Tag byte of a `Put` record.
pub const SET_TAG: u8 = 0x53;

/// Tag byte of a `Get` record.
pub const GET_TAG: u8 = 0x47;

/// Tag byte of a `Remove` record.
pub const REMOVE_TAG: u8 = 0x52;

/// What a command means, over character sequences.
pub enum CommandModel {
    Put { key: Seq<char>, value: Seq<char> },
    Get { key: Seq<char> },
    Remove { key: Seq<char> },
}

/// One command of the store. `Put` and `Remove` are the records that the
/// log persists.
#[derive(Debug)]
pub enum Command {
    Put { key: String, value: String },
    Get { key: String },
    Remove { key: String },
}

impl View for Command {
    type V = CommandModel;

    open spec fn view(&self) -> CommandModel {
        match self {
            Command::Put { key, value } => CommandModel::Put { key: key@, value: value@ },
            Command::Get { key } => CommandModel::Get { key: key@ },
            Command::Remove { key } => CommandModel::Remove { key: key@ },
        }
    }
}

/// The encoding of one string field: its UTF-8 length, then its UTF-8 bytes.
pub open spec fn field_bytes(s: Seq<char>) -> Seq<u8> {
    spec_u64_to_le_bytes(encode_utf8(s).len() as u64) + encode_utf8(s)
}

/// A field can be encoded when its UTF-8 length fits the length prefix.
pub open spec fn field_fits(s: Seq<char>) -> bool {
    encode_utf8(s).len() <= u64::MAX
}

/// Every field of the command fits its length prefix.
pub open spec fn command_fits(c: CommandModel) -> bool {
    match c {
        CommandModel::Put { key, value } => field_fits(key) && field_fits(value),
        CommandModel::Get { key } => field_fits(key),
        CommandModel::Remove { key } => field_fits(key),
    }
}

/// The bytes of one record.
pub open spec fn encode_spec(c: CommandModel) -> Seq<u8> {
    match c {
        CommandModel::Put { key, value } => seq![SET_TAG] + field_bytes(key) + field_bytes(value),
        CommandModel::Get { key } => seq![GET_TAG] + field_bytes(key),
        CommandModel::Remove { key } => seq![REMOVE_TAG] + field_bytes(key),
    }
}

/// Reads one field at the front of `b`: its characters and how many bytes it
/// took, or `None` where the bytes are cut short or are not UTF-8.
pub open spec fn decode_field_spec(b: Seq<u8>) -> Option<(Seq<char>, int)> {
    if b.len() < 8 {
        None
    } else {
        let n = spec_u64_from_le_bytes(b.subrange(0, 8)) as int;
        if 8 + n > b.len() {
            None
        } else if !valid_utf8(b.subrange(8, 8 + n)) {
            None
        } else {
            Some((decode_utf8(b.subrange(8, 8 + n)), 8 + n))
        }
    }
}

/// Reads one record at the front of `b`: the command and how many bytes it
/// took, or `None` where no record starts there.
pub open spec fn decode_prefix_spec(b: Seq<u8>) -> Option<(CommandModel, int)> {
    if b.len() < 1 {
        None
    } else {
        match decode_field_spec(b.skip(1)) {
            None => None,
            Some((key, n1)) => {
                if b[0] == SET_TAG {
                    match decode_field_spec(b.skip(1 + n1)) {
                        None => None,
                        Some((value, n2)) => Some(
                            (CommandModel::Put { key, value }, 1 + n1 + n2),
                        ),
                    }
                } else if b[0] == GET_TAG {
                    Some((CommandModel::Get { key }, 1 + n1))
                } else if b[0] == REMOVE_TAG {
                    Some((CommandModel::Remove { key }, 1 + n1))
                } else {
                    None
                }
            },
        }
    }
}

/// Decoding a byte string that is exactly one record.
pub open spec fn decode_spec(b: Seq<u8>) -> Option<CommandModel> {
    match decode_prefix_spec(b) {
        Some((c, n)) => if n == b.len() {
            Some(c)
        } else {
            None
        },
        None => None,
    }
}

/// Relies on `String::from_utf8`: it succeeds exactly on well-formed UTF-8,
/// and the string holds the characters those bytes encode.
#[verifier::external_body]
fn string_from_utf8(bytes: Vec<u8>) -> (r: Option<String>)
    ensures
        r is Some <==> valid_utf8(bytes@),
        r matches Some(s) ==> s@ == decode_utf8(bytes@),
{
    String::from_utf8(bytes).ok()
}

fn push_field(out: &mut Vec<u8>, s: &String)
    ensures
        final(out)@ == old(out)@ + field_bytes(s@),
        field_fits(s@),
{
    let mut bytes = s.as_str().as_bytes_vec();
    let mut len = u64_to_le_bytes(bytes.len() as u64);
    out.append(&mut len);
    out.append(&mut bytes);
}

/// Reads one field of `b` at `pos`.
fn decode_field(b: &[u8], pos: usize) -> (r: Option<(String, usize)>)
    requires
        pos <= b@.len(),
    ensures
        match decode_field_spec(b@.skip(pos as int)) {
            None => r is None,
            Some((s, n)) => r matches Some((t, p)) && t@ == s && p == pos + n,
        },
{
    let ghost rest = b@.skip(pos as int);
    if b.len() - pos < 8 {
        return None;
    }
    let len_bytes = slice_subrange(b, pos, pos + 8);
    assert(len_bytes@ =~= rest.subrange(0, 8));
    let n = u64_from_le_bytes(len_bytes);
    if n > (b.len() - pos - 8) as u64 {
        return None;
    }
    let n = n as usize;
    let start = pos + 8;
    let bytes = slice_to_vec(slice_subrange(b, start, start + n));
    assert(bytes@ =~= rest.subrange(8, 8 + n));
    match string_from_utf8(bytes) {
        None => None,
        Some(s) => Some((s, start + n)),
    }
}

impl Command {
    /// The record's bytes.
    pub fn encode(&self) -> (r: Vec<u8>)
        ensures
            r@ == encode_spec(self@),
            command_fits(self@),
    {
        let mut out: Vec<u8> = Vec::new();
        match self {
            Command::Put { key, value } => {
                out.push(SET_TAG);
                push_field(&mut out, key);
                push_field(&mut out, value);
            },
            Command::Get { key } => {
                out.push(GET_TAG);
                push_field(&mut out, key);
            },
            Command::Remove { key } => {
                out.push(REMOVE_TAG);
                push_field(&mut out, key);
            },
        }
        out
    }

    /// Reads the record that starts at `pos` in `b`, and the position just
    /// after it.
    pub fn decode_at(b: &[u8], pos: usize) -> (r: Option<(Command, usize)>)
        requires
            pos <= b@.len(),
        ensures
            match decode_prefix_spec(b@.skip(pos as int)) {
                None => r is None,
                Some((c, n)) => r matches Some((d, p)) && d@ == c && p == pos + n,
            },
    {
        let ghost rest = b@.skip(pos as int);
        if pos >= b.len() {
            return None;
        }
        let tag = b[pos];
        assert(rest.skip(1) =~= b@.skip(pos + 1));
        match decode_field(b, pos + 1) {
            None => None,
            Some((key, after_key)) => {
                if tag == SET_TAG {
                    assert(rest.skip(1 + (after_key - pos - 1)) =~= b@.skip(after_key as int));
                    match decode_field(b, after_key) {
                        None => None,
                        Some((value, after_value)) => Some((Command::Put { key, value }, after_value)),
                    }
                } else if tag == GET_TAG {
                    Some((Command::Get { key }, after_key))
                } else if tag == REMOVE_TAG {
                    Some((Command::Remove { key }, after_key))
                } else {
                    None
                }
            },
        }
    }

    /// Decodes `b` as exactly one record.
    pub fn decode(b: &[u8]) -> (r: Option<Command>)
        ensures
            match decode_spec(b@) {
                None => r is None,
                Some(c) => r matches Some(d) && d@ == c,
            },
    {
        assert(b@.skip(0) =~= b@);
        match Command::decode_at(b, 0) {
            None => None,
            Some((c, n)) => if n == b.len() {
                Some(c)
            } else {
                None
            },
        }
    }
}

proof fn lemma_field_round_trip(s: Seq<char>, rest: Seq<u8>)
    requires
        field_fits(s),
    ensures
        decode_field_spec(field_bytes(s) + rest) == Some((s, field_bytes(s).len() as int)),
        field_bytes(s).len() == 8 + encode_utf8(s).len(),
{
    lemma_auto_spec_u64_to_from_le_bytes();
    encode_utf8_valid_utf8(s);
    encode_utf8_decode_utf8(s);
    let b = field_bytes(s) + rest;
    let u = encode_utf8(s);
    assert(b.subrange(0, 8) =~= spec_u64_to_le_bytes(u.len() as u64));
    assert(b.subrange(8, 8 + u.len() as int) =~= u);
}

proof fn lemma_field_sound(b: Seq<u8>)
    requires
        decode_field_spec(b) is Some,
    ensures
        ({
            let (s, n) = decode_field_spec(b)->0;
            &&& field_fits(s)
            &&& 0 < n <= b.len()
            &&& b.take(n) == field_bytes(s)
        }),
{
    lemma_auto_spec_u64_to_from_le_bytes();
    let n = spec_u64_from_le_bytes(b.subrange(0, 8)) as int;
    let u = b.subrange(8, 8 + n);
    decode_utf8_encode_utf8(u);
    let s = decode_utf8(u);
    assert(encode_utf8(s) == u);
    assert(spec_u64_to_le_bytes(u.len() as u64) == b.subrange(0, 8));
    assert(b.take(8 + n) =~= field_bytes(s));
}

/// Decoding the front of a record followed by anything gives the record back.
pub proof fn lemma_decode_prefix_encode(c: CommandModel, rest: Seq<u8>)
    requires
        command_fits(c),
    ensures
        decode_prefix_spec(encode_spec(c) + rest) == Some((c, encode_spec(c).len() as int)),
{
    let b = encode_spec(c) + rest;
    match c {
        CommandModel::Put { key, value } => {
            lemma_field_round_trip(key, field_bytes(value) + rest);
            assert(b.skip(1) =~= field_bytes(key) + (field_bytes(value) + rest));
            let n1 = field_bytes(key).len() as int;
            lemma_field_round_trip(value, rest);
            assert(b.skip(1 + n1) =~= field_bytes(value) + rest);
        },
        CommandModel::Get { key } => {
            lemma_field_round_trip(key, rest);
            assert(b.skip(1) =~= field_bytes(key) + rest);
        },
        CommandModel::Remove { key } => {
            lemma_field_round_trip(key, rest);
            assert(b.skip(1) =~= field_bytes(key) + rest);
        },
    }
}

/// What decoding reads at the front of `b` is the encoding of what it returns.
pub proof fn lemma_decode_prefix_sound(b: Seq<u8>)
    requires
        decode_prefix_spec(b) is Some,
    ensures
        ({
            let (c, n) = decode_prefix_spec(b)->0;
            &&& command_fits(c)
            &&& 0 < n <= b.len()
            &&& b.take(n) == encode_spec(c)
        }),
{
    let (key, n1) = decode_field_spec(b.skip(1))->0;
    lemma_field_sound(b.skip(1));
    if b[0] == SET_TAG {
        let (value, n2) = decode_field_spec(b.skip(1 + n1))->0;
        lemma_field_sound(b.skip(1 + n1));
        assert(b.skip(1 + n1) =~= b.skip(1).skip(n1));
        assert(b.take(1 + n1 + n2) =~= seq![SET_TAG] + field_bytes(key) + field_bytes(value));
    } else {
        assert(b.take(1 + n1) =~= seq![b[0]] + field_bytes(key));
    }
}

/// A record decodes to the command it encodes.
pub proof fn lemma_decode_encode(c: CommandModel)
    requires
        command_fits(c),
    ensures
        decode_spec(encode_spec(c)) == Some(c),
{
    lemma_decode_prefix_encode(c, Seq::empty());
    assert(encode_spec(c) + Seq::<u8>::empty() =~= encode_spec(c));
}

/// Decoding accepts exactly the encodings of commands.
pub proof fn lemma_decode_exact(b: Seq<u8>)
    ensures
        decode_spec(b) is Some ==> command_fits(decode_spec(b)->0) && encode_spec(
            decode_spec(b)->0,
        ) == b,
{
    if decode_spec(b) is Some {
        lemma_decode_prefix_sound(b);
        assert(b.take(b.len() as int) =~= b);
    }
}

} // verus!
