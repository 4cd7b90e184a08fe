//! Address patterns: a glob dialect over message paths, translated into a
//! regular expression and matched against whole paths.

use crate::error::Error;
use crate::message::Message;
use crate::wire::{find_first, lemma_find_first, lemma_find_first_absent, lemma_find_first_at};
use regex::Regex;
use vstd::prelude::*;
use vstd::utf8::*;

verus! {

#[verifier::external_type_specification]
#[verifier::external_body]
pub struct ExRegex(Regex);

/// One path-segment character as a regex class: printable ASCII but
/// `#*,/?[]{}` and space.
pub const ADDR_SYMBOL: &'static str = r#"[A-Za-z0-9!"$%&'()+.0-9:;<=>@\\^_`|~-]"#;

/// One address character as a regex class: a segment character or `/`.
pub const ADDR_FULL: &'static str = r#"[A-Za-z0-9!"$%&'()+.0-9:;<=>@\\^_`|~/-]"#;

/// The characters that have a meaning of their own in a regular expression.
pub open spec fn is_meta(c: char) -> bool {
    c == '\\' || c == '.' || c == '+' || c == '*' || c == '?' || c == '(' || c == ')' || c
        == '|' || c == '[' || c == ']' || c == '{' || c == '}' || c == '^' || c == '$' || c
        == '#' || c == '&' || c == '-' || c == '~'
}

/// `c` as a regex that matches it literally.
pub open spec fn escape_char(c: char) -> Seq<char> {
    if is_meta(c) {
        seq!['\\', c]
    } else {
        seq![c]
    }
}

/// `s` as a regex that matches it literally: a backslash before each meta
/// character.
pub open spec fn escaped(s: Seq<char>) -> Seq<char>
    decreases s.len(),
{
    if s.len() == 0 {
        seq![]
    } else {
        escape_char(s[0]) + escaped(s.drop_first())
    }
}

/// Relies on `regex::escape`: each character of `text`, with a backslash in
/// front of the meta characters (regex-syntax's `is_meta_character`).
#[verifier::external_body]
fn escape(text: &str) -> (r: String)
    ensures
        r@ == escaped(text@),
{
    regex::escape(text)
}

/// The regex for the first `k` members of a bracket set `m`: a `-` between
/// two members stays a range, any other character is literal.
pub open spec fn set_members(m: Seq<char>, k: int) -> Seq<char>
    decreases k,
{
    if k <= 0 {
        seq![]
    } else {
        set_members(m, k - 1) + set_member(m, k - 1)
    }
}

/// The regex for the member of `m` at `k`.
pub open spec fn set_member(m: Seq<char>, k: int) -> Seq<char> {
    if m[k] == '-' && 0 < k < m.len() - 1 {
        seq!['-']
    } else {
        escape_char(m[k])
    }
}

/// The regex class for the bracket set `m` (what stands between `[` and
/// `]`); a leading `!` negates it.
pub open spec fn set_regex(m: Seq<char>) -> Seq<char> {
    if m.len() > 0 && m[0] == '!' {
        seq!['[', '^'] + set_members(m.drop_first(), m.len() - 1) + seq![']']
    } else {
        seq!['['] + set_members(m, m.len() as int) + seq![']']
    }
}

/// The regex for the first `k` characters of a brace list `m`: a comma
/// separates alternatives, any other character is literal.
pub open spec fn alternatives(m: Seq<char>, k: int) -> Seq<char>
    decreases k,
{
    if k <= 0 {
        seq![]
    } else {
        alternatives(m, k - 1) + if m[k - 1] == ',' {
            seq!['|']
        } else {
            escape_char(m[k - 1])
        }
    }
}

/// The regex group for the brace list `m` (what stands between `{` and `}`).
pub open spec fn alt_regex(m: Seq<char>) -> Seq<char> {
    seq!['('] + alternatives(m, m.len() as int) + seq![')']
}

/// The regex for the pattern element that starts at `i`; `None` for a stray
/// or unclosed bracket or brace.
pub open spec fn element(p: Seq<char>, i: int) -> Option<Seq<char>> {
    let c = p[i];
    if c == '/' && i + 1 < p.len() && p[i + 1] == '/' {
        Some(ADDR_FULL@ + seq!['*', '/'])
    } else if c == '?' {
        Some(ADDR_SYMBOL@)
    } else if c == '*' {
        Some(ADDR_SYMBOL@ + seq!['*'])
    } else if c == ']' || c == '}' {
        None
    } else if c == '[' {
        match find_first(p.skip(i + 1), ']') {
            None => None,
            Some(d) => Some(set_regex(p.subrange(i + 1, i + 1 + d))),
        }
    } else if c == '{' {
        match find_first(p.skip(i + 1), '}') {
            None => None,
            Some(d) => Some(alt_regex(p.subrange(i + 1, i + 1 + d))),
        }
    } else {
        Some(escape_char(c))
    }
}

/// How many characters the element that starts at `i` spans beyond its
/// first: the second `/` of `//`, or a set or list and its closing
/// character.
pub open spec fn element_extra(p: Seq<char>, i: int) -> nat {
    let c = p[i];
    if c == '/' && i + 1 < p.len() && p[i + 1] == '/' {
        1
    } else if c == '[' {
        match find_first(p.skip(i + 1), ']') {
            None => 0,
            Some(d) => d + 1,
        }
    } else if c == '{' {
        match find_first(p.skip(i + 1), '}') {
            None => 0,
            Some(d) => d + 1,
        }
    } else {
        0
    }
}

/// An element ends within the pattern.
pub proof fn lemma_element_within(p: Seq<char>, i: int)
    requires
        0 <= i < p.len(),
    ensures
        i + 1 + element_extra(p, i) <= p.len(),
{
    lemma_find_first(p.skip(i + 1), ']');
    lemma_find_first(p.skip(i + 1), '}');
}

/// The regex for the elements of `p` from `i` on.
pub open spec fn translate_from(p: Seq<char>, i: int) -> Option<Seq<char>>
    decreases p.len() - i,
{
    if i < 0 || i >= p.len() {
        Some(seq![])
    } else {
        match element(p, i) {
            None => None,
            Some(piece) => {
                proof {
                    lemma_element_within(p, i);
                }
                match translate_from(p, i + 1 + element_extra(p, i)) {
                None => None,
                    Some(rest) => Some(piece + rest),
                }
            },
        }
    }
}

/// `a` in front of a successful translation.
pub open spec fn prefixed(a: Seq<char>, r: Option<Seq<char>>) -> Option<Seq<char>> {
    match r {
        Some(rest) => Some(a + rest),
        None => None,
    }
}

/// The regex, anchored at both ends, for the address pattern `p`; `None`
/// when `p` is not ASCII, does not start with `/`, or holds a stray or
/// unclosed bracket or brace.
pub open spec fn translate(p: Seq<char>) -> Option<Seq<char>> {
    if p.len() == 0 || !is_ascii_chars(p) || p[0] != '/' {
        None
    } else {
        match translate_from(p, 0) {
            None => None,
            Some(body) => Some(seq!['^'] + body + seq!['$']),
        }
    }
}

/// Position of the first `c` in `p` at or after `from`.
fn find_char(p: &str, c: char, from: usize) -> (r: Option<usize>)
    requires
        from <= p@.len(),
    ensures
        match find_first(p@.skip(from as int), c) {
            Some(d) => r == Some((from + d) as usize),
            None => r is None,
        },
{
    let n = p.unicode_len();
    let ghost tail = p@.skip(from as int);
    let mut k: usize = from;
    while k < n
        invariant
            from <= k <= n,
            n == p@.len(),
            tail == p@.skip(from as int),
            forall|j: int| 0 <= j < k - from ==> tail[j] != c,
        decreases n - k,
    {
        if p.get_char(k) == c {
            proof {
                lemma_find_first_at(tail, c, k - from);
            }
            return Some(k);
        }
        k += 1;
    }
    proof {
        lemma_find_first_absent(tail, c);
    }
    None
}

/// Appends the literal regex for the character of `p` at `k`.
fn push_escaped(out: &mut String, p: &str, k: usize)
    requires
        is_ascii_chars(p@),
        k < p@.len() <= usize::MAX,
    ensures
        final(out)@ == old(out)@ + escape_char(p@[k as int]),
{
    let one = p.substring_ascii(k, k + 1);
    let e = escape(one);
    proof {
        assert(one@ =~= seq![p@[k as int]]);
        assert(one@.drop_first() =~= Seq::<char>::empty());
        assert(e@ == escape_char(p@[k as int]) + escaped(Seq::<char>::empty()));
        assert(e@ =~= escape_char(p@[k as int]));
    }
    out.append(e.as_str());
}

/// Appends the regex class for the bracket set `p[from..to]`.
fn push_set(out: &mut String, p: &str, from: usize, to: usize)
    requires
        is_ascii_chars(p@),
        from <= to <= p@.len() <= usize::MAX,
    ensures
        final(out)@ == old(out)@ + set_regex(p@.subrange(from as int, to as int)),
{
    let ghost m = p@.subrange(from as int, to as int);
    proof {
        reveal_strlit("[");
        reveal_strlit("[^");
        reveal_strlit("]");
        reveal_strlit("-");
    }
    let negated = from < to && p.get_char(from) == '!';
    let start: usize = if negated {
        from + 1
    } else {
        from
    };
    let ghost members = p@.subrange(start as int, to as int);
    let ghost opening: Seq<char> = if negated {
        seq!['[', '^']
    } else {
        seq!['[']
    };
    if negated {
        out.append("[^");
        assert(m.drop_first() =~= members);
    } else {
        out.append("[");
        assert(m =~= members);
    }
    let mut k: usize = start;
    while k < to
        invariant
            start <= k <= to,
            to <= p@.len() <= usize::MAX,
            is_ascii_chars(p@),
            members == p@.subrange(start as int, to as int),
            out@ == old(out)@ + opening + set_members(members, k - start),
        decreases to - k,
    {
        proof {
            reveal_strlit("-");
        }
        let ghost i = k - start;
        assert(members[i] == p@[k as int]);
        assert(set_members(members, i + 1) == set_members(members, i) + set_member(members, i));
        if p.get_char(k) == '-' && k > start && k + 1 < to {
            out.append("-");
            assert(set_member(members, i) == seq!['-']);
        } else {
            push_escaped(out, p, k);
            assert(set_member(members, i) == escape_char(p@[k as int]));
        }
        assert(out@ =~= old(out)@ + opening + set_members(members, k + 1 - start));
        k += 1;
    }
    out.append("]");
    assert(out@ =~= old(out)@ + set_regex(m));
}

/// Appends the regex group for the brace list `p[from..to]`.
fn push_alternatives(out: &mut String, p: &str, from: usize, to: usize)
    requires
        is_ascii_chars(p@),
        from <= to <= p@.len() <= usize::MAX,
    ensures
        final(out)@ == old(out)@ + alt_regex(p@.subrange(from as int, to as int)),
{
    let ghost m = p@.subrange(from as int, to as int);
    proof {
        reveal_strlit("(");
        reveal_strlit(")");
        reveal_strlit("|");
    }
    out.append("(");
    let mut k: usize = from;
    while k < to
        invariant
            from <= k <= to,
            to <= p@.len() <= usize::MAX,
            is_ascii_chars(p@),
            m == p@.subrange(from as int, to as int),
            out@ == old(out)@ + seq!['('] + alternatives(m, k - from),
        decreases to - k,
    {
        proof {
            reveal_strlit("|");
        }
        let ghost i = k - from;
        assert(m[i] == p@[k as int]);
        if p.get_char(k) == ',' {
            out.append("|");
            assert(alternatives(m, i + 1) == alternatives(m, i) + seq!['|']);
        } else {
            push_escaped(out, p, k);
            assert(alternatives(m, i + 1) == alternatives(m, i) + escape_char(p@[k as int]));
        }
        assert(out@ =~= old(out)@ + seq!['('] + alternatives(m, k + 1 - from));
        k += 1;
    }
    out.append(")");
    assert(out@ =~= old(out)@ + alt_regex(m));
}

/// Translates an address pattern into the text of an anchored regular
/// expression. Fails on an empty pattern, one that does not start with `/`,
/// one with a non-ASCII character, and one with a stray or unclosed bracket
/// or brace.
pub fn translate_pattern(pattern: &str) -> (r: Result<String, Error>)
    ensures
        match translate(pattern@) {
            Some(t) => r is Ok && r->Ok_0@ == t,
            None => r is Err && r->Err_0 == Error::PatternSyntaxError,
        },
{
    let n = pattern.unicode_len();
    if n == 0 || !pattern.is_ascii() || pattern.get_char(0) != '/' {
        return Err(Error::PatternSyntaxError);
    }
    let ghost p = pattern@;
    let mut body = String::new();
    let mut i: usize = 0;
    while i < n
        invariant
            i <= n,
            n == p.len(),
            p == pattern@,
            is_ascii_chars(p),
            translate_from(p, 0) == prefixed(body@, translate_from(p, i as int)),
        decreases n - i,
    {
        proof {
            lemma_element_within(p, i as int);
            reveal_strlit("*");
            reveal_strlit("*/");
        }
        let ghost before = body@;
        let c = pattern.get_char(i);
        let next: usize;
        if c == '/' && i + 1 < n && pattern.get_char(i + 1) == '/' {
            body.append(ADDR_FULL);
            body.append("*/");
            next = i + 2;
        } else if c == '?' {
            body.append(ADDR_SYMBOL);
            next = i + 1;
        } else if c == '*' {
            body.append(ADDR_SYMBOL);
            body.append("*");
            next = i + 1;
        } else if c == ']' || c == '}' {
            return Err(Error::PatternSyntaxError);
        } else if c == '[' {
            let j = match find_char(pattern, ']', i + 1) {
                Some(j) => j,
                None => return Err(Error::PatternSyntaxError),
            };
            push_set(&mut body, pattern, i + 1, j);
            next = j + 1;
        } else if c == '{' {
            let j = match find_char(pattern, '}', i + 1) {
                Some(j) => j,
                None => return Err(Error::PatternSyntaxError),
            };
            push_alternatives(&mut body, pattern, i + 1, j);
            next = j + 1;
        } else {
            push_escaped(&mut body, pattern, i);
            next = i + 1;
        }
        proof {
            let piece = element(p, i as int)->Some_0;
            assert(next == i + 1 + element_extra(p, i as int));
            assert(body@ =~= before + piece);
            match translate_from(p, next as int) {
                Some(rest) => {
                    assert(before + (piece + rest) =~= body@ + rest);
                },
                None => {},
            }
        }
        i = next;
    }
    proof {
        reveal_strlit("^");
        reveal_strlit("$");
        assert(body@ + Seq::<char>::empty() =~= body@);
    }
    let mut out = String::new();
    out.append("^");
    out.append(body.as_str());
    out.append("$");
    assert(out@ =~= seq!['^'] + body@ + seq!['$']);
    Ok(out)
}

/// Whether `Regex::new` accepts `expr`.
pub uninterp spec fn regex_accepts(expr: Seq<char>) -> bool;

/// Whether the regex compiled from `expr` matches somewhere in `hay`.
pub uninterp spec fn regex_is_match(expr: Seq<char>, hay: Seq<char>) -> bool;

/// A compiled address pattern; its view is the text of the regular
/// expression it was compiled to. Only `compile` builds one, so `re` is
/// always the regex compiled from `expr`.
pub struct Pattern {
    expr: String,
    re: Regex,
}

impl View for Pattern {
    type V = Seq<char>;

    closed spec fn view(&self) -> Seq<char> {
        self.expr@
    }
}

/// Relies on `regex::Regex::new`: whether it succeeds depends on the
/// expression text alone. The pattern keeps the text it compiled.
#[verifier::external_body]
fn compile(expr: String) -> (r: Option<Pattern>)
    ensures
        match r {
            Some(p) => regex_accepts(expr@) && p@ == expr@,
            None => !regex_accepts(expr@),
        },
{
    match Regex::new(&expr) {
        Ok(re) => Some(Pattern { expr, re }),
        Err(_) => None,
    }
}

impl Pattern {
    /// Compiles an address pattern. Fails with `PatternSyntaxError` where
    /// `translate_pattern` fails, or where the regular expression it gives
    /// is refused.
    pub fn new(pattern: &str) -> (r: Result<Pattern, Error>)
        ensures
            match translate(pattern@) {
                Some(t) => if regex_accepts(t) {
                    r is Ok && r->Ok_0@ == t
                } else {
                    r is Err && r->Err_0 == Error::PatternSyntaxError
                },
                None => r is Err && r->Err_0 == Error::PatternSyntaxError,
            },
    {
        let expr = match translate_pattern(pattern) {
            Ok(expr) => expr,
            Err(e) => return Err(e),
        };
        match compile(expr) {
            Some(p) => Ok(p),
            None => Err(Error::PatternSyntaxError),
        }
    }

    /// Relies on `regex::Regex::is_match`: whether the regex compiled from
    /// `self@` matches somewhere in `hay`, which depends on the two texts
    /// alone.
    #[verifier::external_body]
    fn search(&self, hay: &str) -> (r: bool)
        ensures
            r == regex_is_match(self@, hay@),
    {
        self.re.is_match(hay)
    }

    /// Whether the whole of `path` matches the pattern.
    pub fn matches_path(&self, path: &str) -> (r: bool)
        ensures
            r == regex_is_match(self@, path@),
    {
        self.search(path)
    }

    /// Whether the whole of the message's path matches the pattern.
    pub fn matches(&self, m: Message) -> (r: bool)
        ensures
            r == regex_is_match(self@, m.path@),
    {
        self.search(m.path)
    }
}

} // verus!
