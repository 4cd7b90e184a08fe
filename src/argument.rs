//! Typed arguments and their wire encoding.

use crate::error::Error;
use crate::wire::{
    be_bytes, be_i32, be_u32, find_first, lemma_be_round_trip, lemma_find_first_absent,
    lemma_find_first_at, lemma_i32_bits, padded, padded_len, push_bytes, push_padded, read_be_i32,
    read_be_u32, strchr, utf8_str, write_be_i32, write_be_u32,
};
use vstd::prelude::*;
use vstd::slice::slice_subrange;
use vstd::utf8::*;

verus! {

/// One typed value of a message.
#[allow(non_camel_case_types)]
#[derive(Debug, Clone, Copy)]
pub enum Argument<'a> {
    /// A signed 32-bit integer, tag `i`.
    i(i32),
    /// A 32-bit IEEE-754 float held as its bit pattern, tag `f`.
    f(u32),
    /// UTF-8 text borrowed from its source, tag `s`.
    s(&'a str),
}

/// What an argument holds, as a mathematical value.
pub enum ArgValue {
    /// A signed 32-bit integer.
    Int(i32),
    /// The bit pattern of a 32-bit float.
    Float(u32),
    /// A text, as its characters.
    Str(Seq<char>),
}

impl<'a> View for Argument<'a> {
    type V = ArgValue;

    open spec fn view(&self) -> ArgValue {
        match *self {
            Argument::i(n) => ArgValue::Int(n),
            Argument::f(x) => ArgValue::Float(x),
            Argument::s(t) => ArgValue::Str(t@),
        }
    }
}

/// The canonical tag character of a value's kind.
pub open spec fn tag_of(v: ArgValue) -> char {
    match v {
        ArgValue::Int(_) => 'i',
        ArgValue::Float(_) => 'f',
        ArgValue::Str(_) => 's',
    }
}

/// The wire encoding of a string: its UTF-8 bytes, a NUL, and NUL padding to
/// a multiple of 4 bytes.
pub open spec fn str_wire(t: Seq<char>) -> Seq<u8> {
    padded(encode_utf8(t))
}

/// The wire encoding of a value.
pub open spec fn arg_wire(v: ArgValue) -> Seq<u8> {
    match v {
        ArgValue::Int(n) => be_bytes(n as u32),
        ArgValue::Float(x) => be_bytes(x),
        ArgValue::Str(t) => str_wire(t),
    }
}

/// Decodes a string at the start of `b`: the text and how many bytes it
/// takes, terminator and padding included.
pub open spec fn decode_str(b: Seq<u8>) -> Result<(Seq<char>, int), Error> {
    match find_first(b, 0) {
        None => Err(Error::UnterminatedString),
        Some(z) => if !valid_utf8(b.take(z as int)) {
            Err(Error::InvalidUtf8)
        } else if b.len() < padded_len(z as int) {
            Err(Error::TruncatedBuffer)
        } else {
            Ok((decode_utf8(b.take(z as int)), padded_len(z as int)))
        },
    }
}

/// Decodes a value of kind `tag` at the start of `b`: the value and how many
/// bytes it takes.
pub open spec fn decode_arg(tag: char, b: Seq<u8>) -> Result<(ArgValue, int), Error> {
    if tag == 'i' {
        if b.len() < 4 {
            Err(Error::TruncatedBuffer)
        } else {
            Ok((ArgValue::Int(be_i32(b)), 4))
        }
    } else if tag == 'f' {
        if b.len() < 4 {
            Err(Error::TruncatedBuffer)
        } else {
            Ok((ArgValue::Float(be_u32(b)), 4))
        }
    } else if tag == 's' {
        match decode_str(b) {
            Ok((t, n)) => Ok((ArgValue::Str(t), n)),
            Err(e) => Err(e),
        }
    } else {
        Err(Error::UnknownTypeTag)
    }
}

/// A string argument's encoding is a multiple of 4 bytes long and strictly
/// longer than its payload: at least one NUL always follows the text.
pub proof fn lemma_string_padding(t: Seq<char>)
    ensures
        arg_wire(ArgValue::Str(t)).len() % 4 == 0,
        arg_wire(ArgValue::Str(t)).len() > encode_utf8(t).len(),
        arg_wire(ArgValue::Str(t)).len() == padded_len(encode_utf8(t).len() as int),
        arg_wire(ArgValue::Str(t)).take(encode_utf8(t).len() as int) == encode_utf8(t),
        forall|k: int|
            encode_utf8(t).len() <= k < arg_wire(ArgValue::Str(t)).len() ==> arg_wire(
                ArgValue::Str(t),
            )[k] == 0,
{
    let w = arg_wire(ArgValue::Str(t));
    assert(w.take(encode_utf8(t).len() as int) =~= encode_utf8(t));
}

/// Decodes a NUL-terminated, padded string from the front of `slice` and
/// moves `slice` past it.
pub(crate) fn read_str<'a>(slice: &mut &'a [u8]) -> (r: Result<&'a str, Error>)
    ensures
        match decode_str(old(slice)@) {
            Ok((t, n)) => r is Ok && r->Ok_0@ == t && final(slice)@ == old(slice)@.skip(n),
            Err(e) => r == Err::<&'a str, Error>(e) && final(slice)@ == old(slice)@,
        },
{
    let buf: &'a [u8] = *slice;
    let len = buf.len();
    let z = match strchr(buf, 0) {
        Some(z) => z,
        None => return Err(Error::UnterminatedString),
    };
    let text = match utf8_str(slice_subrange(buf, 0, z)) {
        Some(text) => text,
        None => return Err(Error::InvalidUtf8),
    };
    proof {
        encode_utf8_decode_utf8(text@);
        encode_utf8_valid_utf8(text@);
    }
    let next = z + 1;
    let pad: usize = if next % 4 == 0 {
        0
    } else {
        4 - next % 4
    };
    if pad > len - next {
        return Err(Error::TruncatedBuffer);
    }
    *slice = slice_subrange(buf, next + pad, len);
    Ok(text)
}

/// `t` holds no NUL character.
pub open spec fn nul_free(t: Seq<char>) -> bool {
    forall|k: int| 0 <= k < t.len() ==> t[k] != '\0'
}

/// A value that decodes back from its own encoding: a string must hold no
/// NUL, since the first NUL ends it on the wire.
pub open spec fn encodable(v: ArgValue) -> bool {
    match v {
        ArgValue::Str(t) => nul_free(t),
        _ => true,
    }
}

/// The UTF-8 encoding of a non-zero scalar holds no zero byte.
proof fn lemma_scalar_nonzero(c: u32)
    requires
        is_scalar(c),
        c != 0,
    ensures
        forall|j: int| 0 <= j < encode_scalar(c).len() ==> encode_scalar(c)[j] != 0,
{
    let x1 = (c >> 6u32) & 0x1Fu32;
    let x2 = (c >> 12u32) & 0x0Fu32;
    let x3 = (c >> 18u32) & 0x7u32;
    let y0 = c & 0x3Fu32;
    let y1 = (c >> 6u32) & 0x3Fu32;
    let y2 = (c >> 12u32) & 0x3Fu32;
    assert(c <= 0x7F ==> (c & 0x7Fu32) as u8 != 0) by (bit_vector)
        requires
            c != 0,
    ;
    assert(0xC0u8 | (x1 as u8) != 0) by (bit_vector);
    assert(0xE0u8 | (x2 as u8) != 0) by (bit_vector);
    assert(0xF0u8 | (x3 as u8) != 0) by (bit_vector);
    assert(0x80u8 | (y0 as u8) != 0) by (bit_vector);
    assert(0x80u8 | (y1 as u8) != 0) by (bit_vector);
    assert(0x80u8 | (y2 as u8) != 0) by (bit_vector);
}

/// The UTF-8 encoding of text without NUL holds no zero byte.
pub proof fn lemma_encode_nul_free(t: Seq<char>)
    requires
        nul_free(t),
    ensures
        forall|j: int| 0 <= j < encode_utf8(t).len() ==> encode_utf8(t)[j] != 0,
    decreases t.len(),
{
    if t.len() > 0 {
        let c = t[0] as u32;
        char_is_scalar(t[0]);
        if c == 0 {
            char_u32_cast(t[0], c);
            assert(t[0] == '\0');
        }
        lemma_scalar_nonzero(c);
        lemma_encode_nul_free(t.drop_first());
        let a = encode_scalar(c);
        let b = encode_utf8(t.drop_first());
        assert(encode_utf8(t) == a + b);
        assert forall|j: int| 0 <= j < encode_utf8(t).len() implies encode_utf8(t)[j] != 0 by {
            if j >= a.len() {
                assert(encode_utf8(t)[j] == b[j - a.len()]);
            }
        }
    }
}

/// A buffer that starts with the encoding of a NUL-free string decodes to
/// that string, taking exactly its encoding.
pub proof fn lemma_decode_str_prefix(t: Seq<char>, b: Seq<u8>)
    requires
        nul_free(t),
        b.len() >= str_wire(t).len(),
        b.take(str_wire(t).len() as int) == str_wire(t),
    ensures
        decode_str(b) == Ok::<(Seq<char>, int), Error>((t, str_wire(t).len() as int)),
{
    let e = encode_utf8(t);
    let w = str_wire(t);
    lemma_string_padding(t);
    lemma_encode_nul_free(t);
    assert forall|j: int| 0 <= j < w.len() implies b[j] == w[j] by {
        assert(b.take(w.len() as int)[j] == b[j]);
    }
    assert forall|j: int| 0 <= j < e.len() implies b[j] != 0 by {
        assert(w[j] == e[j]);
    }
    lemma_find_first_at(b, 0, e.len() as int);
    assert(b.take(e.len() as int) =~= e);
    encode_utf8_valid_utf8(t);
    encode_utf8_decode_utf8(t);
}

/// A proper prefix of a NUL-free string's encoding is either missing its
/// terminator or missing padding.
pub proof fn lemma_decode_str_cut(t: Seq<char>, k: int)
    requires
        nul_free(t),
        0 <= k < str_wire(t).len(),
    ensures
        decode_str(str_wire(t).take(k)) == Err::<(Seq<char>, int), Error>(
            Error::TruncatedBuffer,
        ) || decode_str(str_wire(t).take(k)) == Err::<(Seq<char>, int), Error>(
            Error::UnterminatedString,
        ),
{
    let e = encode_utf8(t);
    let w = str_wire(t);
    let p = w.take(k);
    lemma_string_padding(t);
    lemma_encode_nul_free(t);
    if k <= e.len() {
        assert forall|j: int| 0 <= j < p.len() implies p[j] != 0 by {
            assert(p[j] == e[j]);
        }
        lemma_find_first_absent(p, 0);
    } else {
        assert forall|j: int| 0 <= j < e.len() implies p[j] != 0 by {
            assert(p[j] == e[j]);
        }
        lemma_find_first_at(p, 0, e.len() as int);
        assert(p.take(e.len() as int) =~= e);
        encode_utf8_valid_utf8(t);
    }
}

/// A buffer that starts with the encoding of an encodable value decodes,
/// under that value's tag, to the value, taking exactly its encoding.
pub proof fn lemma_decode_arg_prefix(v: ArgValue, b: Seq<u8>)
    requires
        encodable(v),
        b.len() >= arg_wire(v).len(),
        b.take(arg_wire(v).len() as int) == arg_wire(v),
    ensures
        decode_arg(tag_of(v), b) == Ok::<(ArgValue, int), Error>((v, arg_wire(v).len() as int)),
{
    let w = arg_wire(v);
    assert forall|j: int| 0 <= j < w.len() implies b[j] == w[j] by {
        assert(b.take(w.len() as int)[j] == b[j]);
    }
    match v {
        ArgValue::Int(n) => {
            lemma_be_round_trip(n as u32);
            lemma_i32_bits(n);
            assert(be_u32(b) == be_u32(w));
        },
        ArgValue::Float(x) => {
            lemma_be_round_trip(x);
            assert(be_u32(b) == be_u32(w));
        },
        ArgValue::Str(t) => {
            lemma_decode_str_prefix(t, b);
        },
    }
}

/// A proper prefix of an encodable value's encoding fails to decode, with
/// a truncated buffer or an unterminated string.
pub proof fn lemma_decode_arg_cut(v: ArgValue, k: int)
    requires
        encodable(v),
        0 <= k < arg_wire(v).len(),
    ensures
        decode_arg(tag_of(v), arg_wire(v).take(k)) == Err::<(ArgValue, int), Error>(
            Error::TruncatedBuffer,
        ) || decode_arg(tag_of(v), arg_wire(v).take(k)) == Err::<(ArgValue, int), Error>(
            Error::UnterminatedString,
        ),
{
    match v {
        ArgValue::Int(n) => {
            lemma_be_round_trip(n as u32);
        },
        ArgValue::Float(x) => {
            lemma_be_round_trip(x);
        },
        ArgValue::Str(t) => {
            lemma_decode_str_cut(t, k);
        },
    }
}

impl<'a> Argument<'a> {
    /// Decodes one value of kind `typetag` from the front of `slice` and
    /// moves `slice` past the bytes it took.
    pub fn deserialize(typetag: char, slice: &mut &'a [u8]) -> (r: Result<Argument<'a>, Error>)
        ensures
            match decode_arg(typetag, old(slice)@) {
                Ok((v, n)) => r is Ok && r->Ok_0@ == v && final(slice)@ == old(slice)@.skip(n),
                Err(e) => r == Err::<Argument<'a>, Error>(e) && final(slice)@ == old(slice)@,
            },
    {
        let buf: &'a [u8] = *slice;
        let len = buf.len();
        match typetag {
            'i' => {
                if len < 4 {
                    return Err(Error::TruncatedBuffer);
                }
                let n = read_be_i32(buf);
                *slice = slice_subrange(buf, 4, len);
                Ok(Argument::i(n))
            },
            'f' => {
                if len < 4 {
                    return Err(Error::TruncatedBuffer);
                }
                let x = read_be_u32(buf);
                *slice = slice_subrange(buf, 4, len);
                Ok(Argument::f(x))
            },
            's' => match read_str(slice) {
                Ok(text) => Ok(Argument::s(text)),
                Err(e) => Err(e),
            },
            _ => Err(Error::UnknownTypeTag),
        }
    }

    /// The canonical tag character of this argument's kind.
    pub fn typetag(&self) -> (c: char)
        ensures
            c == tag_of(self@),
    {
        match *self {
            Argument::i(_) => 'i',
            Argument::f(_) => 'f',
            Argument::s(_) => 's',
        }
    }

    /// Appends this argument's wire encoding to `into`.
    pub fn serialize(&self, into: &mut Vec<u8>)
        ensures
            final(into)@ == old(into)@ + arg_wire(self@),
    {
        match *self {
            Argument::i(n) => {
                let b = write_be_i32(n);
                push_bytes(into, &b);
            },
            Argument::f(x) => {
                let b = write_be_u32(x);
                push_bytes(into, &b);
            },
            Argument::s(t) => {
                push_padded(into, t.as_bytes());
            },
        }
    }
}

impl<'a> From<i32> for Argument<'a> {
    fn from(n: i32) -> (r: Argument<'a>) {
        Argument::i(n)
    }
}

impl<'a> vstd::std_specs::convert::FromSpecImpl<i32> for Argument<'a> {
    open spec fn obeys_from_spec() -> bool {
        true
    }

    open spec fn from_spec(n: i32) -> Argument<'a> {
        Argument::i(n)
    }
}

impl<'a> From<&'a str> for Argument<'a> {
    fn from(t: &'a str) -> (r: Argument<'a>) {
        Argument::s(t)
    }
}

impl<'a> vstd::std_specs::convert::FromSpecImpl<&'a str> for Argument<'a> {
    open spec fn obeys_from_spec() -> bool {
        true
    }

    open spec fn from_spec(t: &'a str) -> Argument<'a> {
        Argument::s(t)
    }
}

} // verus!
