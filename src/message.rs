//! Whole messages: a path, a type-tag string and the arguments it describes.

use crate::argument::{
    arg_wire, decode_arg, decode_str, encodable, lemma_decode_arg_cut, lemma_decode_arg_prefix,
    lemma_decode_str_cut, lemma_decode_str_prefix, nul_free, read_str, str_wire, tag_of, ArgValue,
    Argument,
};
use crate::error::Error;
use crate::wire::push_padded;
use vstd::prelude::*;
use vstd::utf8::*;

verus! {

/// A message: an address path and its ordered arguments.
pub struct Message<'a> {
    pub path: &'a str,
    pub arguments: Vec<Argument<'a>>,
}

/// What a message holds, as a mathematical value.
pub struct MessageValue {
    pub path: Seq<char>,
    pub args: Seq<ArgValue>,
}

impl<'a> View for Message<'a> {
    type V = MessageValue;

    open spec fn view(&self) -> MessageValue {
        MessageValue { path: self.path@, args: self.arguments@.map_values(|a: Argument<'a>| a@) }
    }
}

/// The tag characters of `args`, in order.
pub open spec fn tags_of(args: Seq<ArgValue>) -> Seq<char> {
    args.map_values(|v: ArgValue| tag_of(v))
}

/// The type-tag string of `args`: a comma, then one tag per argument.
pub open spec fn tag_string(args: Seq<ArgValue>) -> Seq<char> {
    seq![','] + tags_of(args)
}

/// The wire encodings of `args`, one after the other.
pub open spec fn args_wire(args: Seq<ArgValue>) -> Seq<u8>
    decreases args.len(),
{
    if args.len() == 0 {
        seq![]
    } else {
        arg_wire(args[0]) + args_wire(args.drop_first())
    }
}

/// The wire encoding of a message.
pub open spec fn message_wire(m: MessageValue) -> Seq<u8> {
    str_wire(m.path) + str_wire(tag_string(m.args)) + args_wire(m.args)
}

/// Decodes one value per tag of `tags` from the front of `b`, in order.
pub open spec fn decode_args(tags: Seq<char>, b: Seq<u8>) -> Result<Seq<ArgValue>, Error>
    decreases tags.len(),
{
    if tags.len() == 0 {
        Ok(seq![])
    } else {
        match decode_arg(tags[0], b) {
            Err(e) => Err(e),
            Ok((v, n)) => match decode_args(tags.drop_first(), b.skip(n)) {
                Err(e) => Err(e),
                Ok(vs) => Ok(seq![v] + vs),
            },
        }
    }
}

/// Decodes a message from the front of `b`.
pub open spec fn decode_message(b: Seq<u8>) -> Result<MessageValue, Error> {
    match decode_str(b) {
        Err(e) => Err(e),
        Ok((path, n1)) => match decode_str(b.skip(n1)) {
            Err(e) => Err(e),
            Ok((tags, n2)) => if tags.len() == 0 || tags[0] != ',' {
                Err(Error::MalformedTypeTagString)
            } else {
                match decode_args(tags.drop_first(), b.skip(n1).skip(n2)) {
                    Err(e) => Err(e),
                    Ok(args) => Ok(MessageValue { path, args }),
                }
            },
        },
    }
}

/// `vs` put in front of the values of a successful decode.
pub open spec fn after(vs: Seq<ArgValue>, r: Result<Seq<ArgValue>, Error>) -> Result<
    Seq<ArgValue>,
    Error,
> {
    match r {
        Ok(ws) => Ok(vs + ws),
        Err(e) => Err(e),
    }
}

/// `args_wire` grows by one encoding when one argument is appended.
proof fn lemma_args_wire_push(args: Seq<ArgValue>, v: ArgValue)
    ensures
        args_wire(args.push(v)) == args_wire(args) + arg_wire(v),
    decreases args.len(),
{
    if args.len() == 0 {
        assert(args.push(v).drop_first() =~= seq![]);
        assert(args_wire(seq![]) == Seq::<u8>::empty());
        assert(args_wire(args.push(v)) =~= args_wire(args) + arg_wire(v));
    } else {
        assert(args.push(v).drop_first() =~= args.drop_first().push(v));
        lemma_args_wire_push(args.drop_first(), v);
        assert(args_wire(args.push(v)) =~= args_wire(args) + arg_wire(v));
    }
}

impl MessageValue {
    /// The message decodes back from its own encoding: its path and its
    /// string arguments hold no NUL.
    pub open spec fn encodable(&self) -> bool {
        &&& nul_free(self.path)
        &&& forall|k: int| 0 <= k < self.args.len() ==> encodable(#[trigger] self.args[k])
    }
}

/// A buffer that starts with the encodings of encodable values decodes,
/// under their tags, to those values.
proof fn lemma_decode_args_prefix(args: Seq<ArgValue>, b: Seq<u8>)
    requires
        forall|k: int| 0 <= k < args.len() ==> encodable(#[trigger] args[k]),
        b.len() >= args_wire(args).len(),
        b.take(args_wire(args).len() as int) == args_wire(args),
    ensures
        decode_args(tags_of(args), b) == Ok::<Seq<ArgValue>, Error>(args),
    decreases args.len(),
{
    if args.len() > 0 {
        let a = arg_wire(args[0]);
        let rest = args_wire(args.drop_first());
        assert(args_wire(args) == a + rest);
        assert(b.take(a.len() as int) =~= a) by {
            assert(b.take(a.len() as int) =~= b.take(args_wire(args).len() as int).take(
                a.len() as int,
            ));
        }
        lemma_decode_arg_prefix(args[0], b);
        assert(b.skip(a.len() as int).take(rest.len() as int) =~= rest) by {
            assert forall|j: int| 0 <= j < rest.len() implies b.skip(a.len() as int)[j]
                == rest[j] by {
                assert(b.take(args_wire(args).len() as int)[a.len() + j] == b[a.len() + j]);
            }
        }
        assert(tags_of(args).drop_first() =~= tags_of(args.drop_first()));
        lemma_decode_args_prefix(args.drop_first(), b.skip(a.len() as int));
        assert(seq![args[0]] + args.drop_first() =~= args);
    } else {
        assert(tags_of(args) =~= Seq::<char>::empty());
        assert(args =~= Seq::<ArgValue>::empty());
    }
}

/// A proper prefix of the encodings of encodable values fails to decode
/// under their tags, with a truncated buffer or an unterminated string.
proof fn lemma_decode_args_cut(args: Seq<ArgValue>, k: int)
    requires
        forall|i: int| 0 <= i < args.len() ==> encodable(#[trigger] args[i]),
        0 <= k < args_wire(args).len(),
    ensures
        decode_args(tags_of(args), args_wire(args).take(k)) == Err::<Seq<ArgValue>, Error>(
            Error::TruncatedBuffer,
        ) || decode_args(tags_of(args), args_wire(args).take(k)) == Err::<Seq<ArgValue>, Error>(
            Error::UnterminatedString,
        ),
    decreases args.len(),
{
    let a = arg_wire(args[0]);
    let rest = args_wire(args.drop_first());
    let p = args_wire(args).take(k);
    assert(args_wire(args) == a + rest);
    assert(tags_of(args).drop_first() =~= tags_of(args.drop_first()));
    if k < a.len() {
        assert(p =~= a.take(k));
        lemma_decode_arg_cut(args[0], k);
    } else {
        assert(p.take(a.len() as int) =~= a);
        lemma_decode_arg_prefix(args[0], p);
        assert(p.skip(a.len() as int) =~= rest.take(k - a.len()));
        lemma_decode_args_cut(args.drop_first(), k - a.len());
    }
}

/// The type-tag string of any arguments is a comma followed by their tags,
/// and holds no NUL.
proof fn lemma_tag_string(args: Seq<ArgValue>)
    ensures
        nul_free(tag_string(args)),
        tag_string(args).len() > 0,
        tag_string(args)[0] == ',',
        tag_string(args).drop_first() == tags_of(args),
{
    assert(tag_string(args).drop_first() =~= tags_of(args));
}

/// Decoding the encoding of a message gives the message back, provided its
/// path and string arguments hold no NUL.
pub proof fn lemma_round_trip(m: MessageValue)
    requires
        m.encodable(),
    ensures
        decode_message(message_wire(m)) == Ok::<MessageValue, Error>(m),
{
    let s1 = str_wire(m.path);
    let s2 = str_wire(tag_string(m.args));
    let r = args_wire(m.args);
    let w = message_wire(m);
    assert(w == s1 + s2 + r);
    lemma_tag_string(m.args);
    assert(w.take(s1.len() as int) =~= s1);
    lemma_decode_str_prefix(m.path, w);
    let w1 = w.skip(s1.len() as int);
    assert(w1 =~= s2 + r);
    assert(w1.take(s2.len() as int) =~= s2);
    lemma_decode_str_prefix(tag_string(m.args), w1);
    let w2 = w1.skip(s2.len() as int);
    assert(w2 =~= r);
    assert(w2.take(r.len() as int) =~= r);
    lemma_decode_args_prefix(m.args, w2);
}

/// Decoding a proper prefix of the encoding of a message fails with a
/// truncated buffer or an unterminated string, provided its path and string
/// arguments hold no NUL.
pub proof fn lemma_truncated_prefix(m: MessageValue, k: int)
    requires
        m.encodable(),
        0 <= k < message_wire(m).len(),
    ensures
        decode_message(message_wire(m).take(k)) == Err::<MessageValue, Error>(
            Error::TruncatedBuffer,
        ) || decode_message(message_wire(m).take(k)) == Err::<MessageValue, Error>(
            Error::UnterminatedString,
        ),
{
    let s1 = str_wire(m.path);
    let s2 = str_wire(tag_string(m.args));
    let r = args_wire(m.args);
    let w = message_wire(m);
    let p = w.take(k);
    assert(w == s1 + s2 + r);
    lemma_tag_string(m.args);
    if k < s1.len() {
        assert(p =~= s1.take(k));
        lemma_decode_str_cut(m.path, k);
    } else {
        assert(p.take(s1.len() as int) =~= s1);
        lemma_decode_str_prefix(m.path, p);
        let p1 = p.skip(s1.len() as int);
        let k1 = k - s1.len();
        if k1 < s2.len() {
            assert(p1 =~= s2.take(k1));
            lemma_decode_str_cut(tag_string(m.args), k1);
        } else {
            assert(p1.take(s2.len() as int) =~= s2);
            lemma_decode_str_prefix(tag_string(m.args), p1);
            let p2 = p1.skip(s2.len() as int);
            assert(p2 =~= r.take(k1 - s2.len()));
            lemma_decode_args_cut(m.args, k1 - s2.len());
        }
    }
}

impl<'a> Message<'a> {
    /// Decodes a message from `buf`: the path, the type-tag string, which
    /// must start with a comma, and one argument per tag. Bytes after the
    /// last argument are ignored.
    pub fn deserialize(buf: &'a [u8]) -> (r: Result<Message<'a>, Error>)
        ensures
            match decode_message(buf@) {
                Ok(m) => r is Ok && r->Ok_0@ == m,
                Err(e) => r is Err && r->Err_0 == e,
            },
    {
        let mut slice: &'a [u8] = buf;
        let path = match read_str(&mut slice) {
            Ok(path) => path,
            Err(e) => return Err(e),
        };
        let ghost b1 = slice@;
        let tags = match read_str(&mut slice) {
            Ok(tags) => tags,
            Err(e) => return Err(e),
        };
        let ghost b2 = slice@;
        let ntags = tags.unicode_len();
        if ntags == 0 || tags.get_char(0) != ',' {
            return Err(Error::MalformedTypeTagString);
        }
        proof {
            match decode_args(tags@.drop_first(), b2) {
                Ok(args) => assert(decode_message(buf@) == Ok::<MessageValue, Error>(
                    MessageValue { path: path@, args },
                )),
                Err(e) => assert(decode_message(buf@) == Err::<MessageValue, Error>(e)),
            }
        }
        let mut arguments: Vec<Argument<'a>> = Vec::new();
        let mut i: usize = 1;
        while i < ntags
            invariant
                1 <= i <= ntags,
                ntags == tags@.len(),
                forall|e: Error|
                    decode_args(tags@.drop_first(), b2) == Err::<Seq<ArgValue>, Error>(e)
                        ==> decode_message(buf@) == Err::<MessageValue, Error>(e),
                decode_args(tags@.drop_first(), b2) == after(
                    arguments@.map_values(|a: Argument<'a>| a@),
                    decode_args(tags@.subrange(i as int, ntags as int), slice@),
                ),
            decreases ntags - i,
        {
            let ghost rest = tags@.subrange(i as int, ntags as int);
            let ghost before = slice@;
            assert(rest[0] == tags@[i as int]);
            assert(rest.drop_first() =~= tags@.subrange(i + 1, ntags as int));
            let tag = tags.get_char(i);
            match Argument::deserialize(tag, &mut slice) {
                Ok(arg) => {
                    let ghost old_vals = arguments@.map_values(|a: Argument<'a>| a@);
                    arguments.push(arg);
                    proof {
                        let vals = arguments@.map_values(|a: Argument<'a>| a@);
                        assert(vals =~= old_vals.push(arg@));
                        let tail = decode_args(tags@.subrange(i + 1, ntags as int), slice@);
                        match tail {
                            Ok(ws) => {
                                assert(old_vals + (seq![arg@] + ws) =~= vals + ws);
                            },
                            Err(_) => {},
                        }
                    }
                },
                Err(e) => {
                    assert(decode_args(rest, before) == Err::<Seq<ArgValue>, Error>(e));
                    return Err(e);
                },
            }
            i += 1;
        }
        proof {
            assert(tags@.subrange(ntags as int, ntags as int) =~= Seq::<char>::empty());
            let vals = arguments@.map_values(|a: Argument<'a>| a@);
            assert(vals + Seq::<ArgValue>::empty() =~= vals);
        }
        Ok(Message { path, arguments })
    }

    /// The wire encoding of this message: the path, the type-tag string and
    /// each argument's encoding, in order.
    pub fn serialize(&self) -> (r: Vec<u8>)
        ensures
            r@ == message_wire(self@),
    {
        let mut ret: Vec<u8> = Vec::new();
        push_padded(&mut ret, self.path.as_bytes());
        let n = self.arguments.len();
        let mut tags: Vec<u8> = Vec::new();
        tags.push(44u8);
        let mut i: usize = 0;
        while i < n
            invariant
                i <= n,
                n == self.arguments@.len(),
                tags@.len() == i + 1,
                tags@[0] == 44u8,
                forall|k: int| 0 <= k < i ==> tags@[k + 1] == tag_of(self.arguments@[k]@) as u8,
            decreases n - i,
        {
            let c = self.arguments[i].typetag();
            tags.push(c as u8);
            i += 1;
        }
        proof {
            let chars = tag_string(self@.args);
            assert(is_ascii_chars(chars));
            is_ascii_chars_encode_utf8(chars);
            assert(tags@ =~= encode_utf8(chars));
        }
        push_padded(&mut ret, tags.as_slice());
        let mut i: usize = 0;
        while i < n
            invariant
                i <= n,
                n == self.arguments@.len(),
                ret@ == str_wire(self@.path) + str_wire(tag_string(self@.args)) + args_wire(
                    self@.args.take(i as int),
                ),
            decreases n - i,
        {
            let ghost prev = ret@;
            self.arguments[i].serialize(&mut ret);
            proof {
                let args = self@.args;
                assert(args.take(i + 1) =~= args.take(i as int).push(args[i as int]));
                lemma_args_wire_push(args.take(i as int), args[i as int]);
            }
            i += 1;
        }
        assert(self@.args.take(n as int) =~= self@.args);
        ret
    }
}

} // verus!
