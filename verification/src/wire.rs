//! The tagged-record encoding of a payload's fields: base-128 varints,
//! tags, and length-delimited strings. What the encoding is stands here as
//! spec functions; reading and writing single fields is done by the
//! `protobuf` crate, behind the four functions at the end.

use vstd::prelude::*;
use vstd::utf8::{decode_utf8, encode_utf8, valid_utf8};

verus! {

/// Wire type of a varint field.
pub const WIRE_VARINT: u32 = 0;

/// Wire type of an eight-byte field.
pub const WIRE_FIXED64: u32 = 1;

/// Wire type of a length-delimited field (strings among them).
pub const WIRE_LENGTH_DELIMITED: u32 = 2;

/// Wire type of a four-byte field.
pub const WIRE_FIXED32: u32 = 5;

/// Largest field number that a tag can carry.
pub const FIELD_NUMBER_MAX: u32 = 0x1fff_ffff;

/// The base-128 varint of `n`: seven bits per byte, least significant group
/// first, the high bit set on every byte but the last.
pub open spec fn varint(n: nat) -> Seq<u8>
    decreases n,
{
    if n < 128 {
        seq![n as u8]
    } else {
        seq![(128 + n % 128) as u8] + varint(n / 128)
    }
}

/// The varint at the start of `s`, as its value and its length in bytes, when
/// `depth` bytes of it were read before `s`. `None` when `s` ends within the
/// varint or the varint goes on after its tenth byte.
pub open spec fn varint_at(s: Seq<u8>, depth: nat) -> Option<(nat, nat)>
    decreases s.len(),
{
    if s.len() == 0 || depth >= 10 {
        None
    } else if s[0] < 128 {
        Some((s[0] as nat, 1))
    } else {
        match varint_at(s.skip(1), depth + 1) {
            Some((value, len)) => Some((((s[0] - 128) + 128 * value) as nat, len + 1)),
            None => None,
        }
    }
}

/// The tag at the start of `s`: field number, wire type, and length in
/// bytes. The varint is cut to 32 bits; its low three bits are the wire type
/// and must be at most 5, the bits above are the field number and must not
/// be 0.
pub open spec fn tag_at(s: Seq<u8>) -> Option<(u32, u32, nat)> {
    match varint_at(s, 0) {
        Some((value, len)) => {
            let v = value % 0x1_0000_0000;
            if v % 8 <= 5 && v / 8 != 0 {
                Some(((v / 8) as u32, (v % 8) as u32, len))
            } else {
                None
            }
        },
        None => None,
    }
}

/// The length-delimited string at the start of `s`, with the number of bytes
/// it takes: a varint length, cut to 32 bits, and that many bytes of UTF-8.
pub open spec fn string_at(s: Seq<u8>) -> Option<(Seq<char>, nat)> {
    match varint_at(s, 0) {
        Some((value, len)) => {
            let n = value % 0x1_0000_0000;
            if len + n <= s.len() && valid_utf8(s.subrange(len as int, (len + n) as int)) {
                Some((decode_utf8(s.subrange(len as int, (len + n) as int)), len + n))
            } else {
                None
            }
        },
        None => None,
    }
}

/// The number of bytes that the value of a field of wire type `wire` takes at
/// the start of `s`. `None` when `s` ends within it or `wire` is a group
/// marker.
pub open spec fn skip_at(s: Seq<u8>, wire: u32) -> Option<nat> {
    if wire == WIRE_VARINT {
        match varint_at(s, 0) {
            Some((_, len)) => Some(len),
            None => None,
        }
    } else if wire == WIRE_FIXED64 {
        if s.len() >= 8 {
            Some(8)
        } else {
            None
        }
    } else if wire == WIRE_FIXED32 {
        if s.len() >= 4 {
            Some(4)
        } else {
            None
        }
    } else if wire == WIRE_LENGTH_DELIMITED {
        match varint_at(s, 0) {
            Some((value, len)) => if len + value % 0x1_0000_0000 <= s.len() {
                Some(len + value % 0x1_0000_0000)
            } else {
                None
            },
            None => None,
        }
    } else {
        None
    }
}

/// The bytes of string field `number` with value `chars`: the tag, the length
/// of the UTF-8 bytes, and those bytes.
pub open spec fn string_field(number: u32, chars: Seq<char>) -> Seq<u8> {
    varint((number * 8 + WIRE_LENGTH_DELIMITED) as nat) + varint(encode_utf8(chars).len())
        + encode_utf8(chars)
}

/// A varint is at least one byte long and lies within the bytes it is read
/// from.
pub proof fn lemma_varint_at_len(s: Seq<u8>, depth: nat)
    ensures
        varint_at(s, depth) matches Some((_, len)) ==> 1 <= len <= s.len() && len + depth <= 10,
    decreases s.len(),
{
    if s.len() != 0 && depth < 10 && s[0] >= 128 {
        lemma_varint_at_len(s.skip(1), depth + 1);
    }
}

/// Bytes behind a varint do not change what is read.
pub proof fn lemma_varint_at_prefix(s: Seq<u8>, t: Seq<u8>, depth: nat)
    ensures
        varint_at(s, depth) is Some ==> varint_at(s + t, depth) == varint_at(s, depth),
    decreases s.len(),
{
    if s.len() != 0 && depth < 10 {
        assert((s + t)[0] == s[0]);
        if s[0] >= 128 {
            assert((s + t).skip(1) =~= s.skip(1) + t);
            lemma_varint_at_prefix(s.skip(1), t, depth + 1);
        }
    }
}

/// A number below 2^32 makes a varint of at most five bytes.
pub proof fn lemma_varint_len(n: nat)
    requires
        n < 0x1_0000_0000,
    ensures
        1 <= varint(n).len() <= 5,
{
    reveal_with_fuel(varint, 6);
    let a = n / 128;
    let b = a / 128;
    let c = b / 128;
    let d = c / 128;
    assert(d < 128);
}

/// Reading a varint that was written gives the number back, whatever follows.
pub proof fn lemma_varint_round(n: nat, depth: nat)
    requires
        depth + varint(n).len() <= 10,
    ensures
        varint_at(varint(n), depth) == Some((n, varint(n).len())),
    decreases n,
{
    let s = varint(n);
    if n >= 128 {
        let rest = varint(n / 128);
        assert(s.skip(1) =~= rest);
        assert(s.len() == rest.len() + 1);
        lemma_varint_round(n / 128, depth + 1);
        assert(s[0] == 128 + n % 128);
        assert((s[0] - 128) + 128 * (n / 128) == n);
    }
}

/// A string field that was written reads back as its tag followed by its
/// string, whatever follows.
pub proof fn lemma_string_field_round(number: u32, chars: Seq<char>, tail: Seq<u8>)
    requires
        number == 1 || number == 2,
        encode_utf8(chars).len() < 0x1_0000_0000,
    ensures
        tag_at(string_field(number, chars) + tail) == Some(
            (number, WIRE_LENGTH_DELIMITED, 1nat),
        ),
        string_at((string_field(number, chars) + tail).skip(1)) == Some(
            (chars, (string_field(number, chars).len() - 1) as nat),
        ),
        (string_field(number, chars) + tail).skip(string_field(number, chars).len() as int)
            == tail,
{
    let bytes = encode_utf8(chars);
    let n = bytes.len();
    let field = string_field(number, chars);
    let tag = (number * 8 + WIRE_LENGTH_DELIMITED) as nat;
    assert(varint(tag) =~= seq![tag as u8]);
    assert((field + tail)[0] == tag as u8);
    // the tag
    assert(varint_at(field + tail, 0) == Some((tag, 1nat)));
    // the string behind it
    let behind = (field + tail).skip(1);
    lemma_varint_len(n);
    lemma_varint_round(n, 0);
    lemma_varint_at_prefix(varint(n), bytes + tail, 0);
    assert(behind =~= varint(n) + (bytes + tail));
    let len = varint(n).len();
    assert(behind.subrange(len as int, (len + n) as int) =~= bytes);
    vstd::utf8::encode_utf8_valid_utf8(chars);
    vstd::utf8::encode_utf8_decode_utf8(chars);
    assert((field + tail).skip(field.len() as int) =~= tail);
}

/// Appends string field `number` with value `s` to `out`. Calls
/// `CodedOutputStream::vec`, `write_string` and `flush` of `protobuf`;
/// trusted to append the tag, the byte length of `s` and the bytes of `s`,
/// each varint in base 128, and not to fail on a vector. `write_string`
/// panics on a field number outside `1..=FIELD_NUMBER_MAX` and cuts a length
/// to 32 bits, hence the `requires`.
#[verifier::external_body]
pub(crate) fn write_string(out: &mut Vec<u8>, number: u32, s: &str) -> (r: Result<
    (),
    protobuf::ProtobufError,
>)
    requires
        1 <= number <= FIELD_NUMBER_MAX,
        encode_utf8(s@).len() < 0x1_0000_0000,
    ensures
        r is Ok,
        final(out)@ == old(out)@ + string_field(number, s@),
{
    let mut os = protobuf::CodedOutputStream::vec(out);
    os.write_string(number, s)?;
    os.flush()
}

/// Reads the tag at the start of `rest`. Calls `CodedInputStream::from_bytes`,
/// `read_tag_unpack` and `pos` of `protobuf`; trusted to return field number,
/// wire type (as its number) and the count of bytes read as `tag_at` states
/// them, and an error where `tag_at` gives none.
#[verifier::external_body]
pub(crate) fn read_tag(rest: &[u8]) -> (r: Result<(u32, u32, usize), protobuf::ProtobufError>)
    ensures
        match tag_at(rest@) {
            Some((number, wire, len)) => r matches Ok(t) && t.0 == number && t.1 == wire && t.2
                == len,
            None => r is Err,
        },
{
    let mut is = protobuf::CodedInputStream::from_bytes(rest);
    let (number, wire) = is.read_tag_unpack()?;
    Ok((number, wire as u32, is.pos() as usize))
}

/// Reads the length-delimited string at the start of `rest`. Calls
/// `CodedInputStream::from_bytes`, `read_string` and `pos` of `protobuf`;
/// trusted to return the string and the count of bytes read as `string_at`
/// states them, and an error where `string_at` gives none.
#[verifier::external_body]
pub(crate) fn read_string(rest: &[u8]) -> (r: Result<(String, usize), protobuf::ProtobufError>)
    ensures
        match string_at(rest@) {
            Some((chars, len)) => r matches Ok(t) && t.0@ == chars && t.1 == len,
            None => r is Err,
        },
{
    let mut is = protobuf::CodedInputStream::from_bytes(rest);
    let s = is.read_string()?;
    Ok((s, is.pos() as usize))
}

/// Passes over the value of a field of wire type `wire` at the start of
/// `rest`. Calls `CodedInputStream::from_bytes`, `skip_field` and `pos` of
/// `protobuf`; trusted to return the count of bytes read as `skip_at` states
/// it, and an error where `skip_at` gives none.
#[verifier::external_body]
pub(crate) fn skip_field(rest: &[u8], wire: u32) -> (r: Result<usize, protobuf::ProtobufError>)
    requires
        wire <= 5,
    ensures
        match skip_at(rest@, wire) {
            Some(len) => r matches Ok(n) && n == len,
            None => r is Err,
        },
{
    let mut is = protobuf::CodedInputStream::from_bytes(rest);
    is.skip_field(protobuf::wire_format::WireType::new(wire).unwrap())?;
    Ok(is.pos() as usize)
}

/// The error type of `protobuf`, carried through unread.
#[verifier::external_type_specification]
#[verifier::external_body]
pub struct ExProtobufError(protobuf::ProtobufError);

} // verus!
