//! A tokenizer for combined-shader source text.
//!
//! The tokenizer walks an ASCII source string from the front: each call
//! strips leading spaces, line comments introduced by two slashes, and then
//! one token. Identifiers are runs of ASCII letters and digits that do not
//! start with a digit.

use vstd::prelude::*;

use vstd::string::StrSliceExecFns;

use crate::entries::str_eq;

verus! {

/// The four top-level declarations a combined-shader source can open.
#[derive(Debug, Clone, Copy, PartialEq, Eq, Structural)]
pub enum DeclarationOps {
    VertexInput,
    VertexShader,
    FragmentShader,
    Varyings,
}

/// A declared variable: its name and the text of its type.
#[derive(Debug, Clone, PartialEq, Eq)]
pub struct Variable<'s> {
    pub name: &'s str,
    pub type_str: &'s str,
}

/// A blank character the tokenizer skips over.
pub open spec fn is_space_char(c: char) -> bool {
    c == ' ' || c == '\n' || c == '\r' || c == '\t'
}

/// An ASCII decimal digit.
pub open spec fn is_digit_char(c: char) -> bool {
    0x30 <= c as u32 && c as u32 <= 0x39
}

/// An ASCII letter or digit; what an identifier is made of.
pub open spec fn is_ident_char(c: char) -> bool {
    (0x30 <= c as u32 && c as u32 <= 0x39) || (0x41 <= c as u32 && c as u32 <= 0x5a) || (0x61 <= c
        as u32 && c as u32 <= 0x7a)
}

/// A character that a type ascription runs up to but does not include.
pub open spec fn ends_type(c: char) -> bool {
    c == ';' || c == '@'
}

/// `p` is a prefix of `s`.
pub open spec fn spec_starts_with(s: Seq<char>, p: Seq<char>) -> bool {
    p.len() <= s.len() && s.subrange(0, p.len() as int) == p
}

/// The length of the longest prefix of `s` with no line break.
pub open spec fn line_span(s: Seq<char>) -> nat
    decreases s.len(),
{
    if s.len() == 0 || s[0] == '\n' {
        0
    } else {
        1 + line_span(s.skip(1))
    }
}

/// The length of the longest prefix of `s` made of identifier characters.
pub open spec fn ident_span(s: Seq<char>) -> nat
    decreases s.len(),
{
    if s.len() == 0 || !is_ident_char(s[0]) {
        0
    } else {
        1 + ident_span(s.skip(1))
    }
}

/// The length of the longest prefix of `s` made of decimal digits.
pub open spec fn digit_span(s: Seq<char>) -> nat
    decreases s.len(),
{
    if s.len() == 0 || !is_digit_char(s[0]) {
        0
    } else {
        1 + digit_span(s.skip(1))
    }
}

/// The length of the longest prefix of `s` with no type-ending character.
pub open spec fn type_span(s: Seq<char>) -> nat
    decreases s.len(),
{
    if s.len() == 0 || ends_type(s[0]) {
        0
    } else {
        1 + type_span(s.skip(1))
    }
}

/// No span reaches past its input.
pub proof fn lemma_spans_le_len(s: Seq<char>)
    ensures
        line_span(s) <= s.len(),
        ident_span(s) <= s.len(),
        digit_span(s) <= s.len(),
        type_span(s) <= s.len(),
    decreases s.len(),
{
    if s.len() > 0 {
        lemma_spans_le_len(s.skip(1));
    }
}

/// `s` with every leading blank and line comment removed.
pub open spec fn ignores_stripped(s: Seq<char>) -> Seq<char>
    decreases s.len(),
    via ignores_stripped_decreases
{
    if s.len() > 0 && is_space_char(s[0]) {
        ignores_stripped(s.skip(1))
    } else if s.len() >= 2 && s[0] == '/' && s[1] == '/' {
        ignores_stripped(s.skip((2 + line_span(s.skip(2))) as int))
    } else {
        s
    }
}

#[via_fn]
proof fn ignores_stripped_decreases(s: Seq<char>) {
    if !(s.len() > 0 && is_space_char(s[0])) && s.len() >= 2 && s[0] == '/' && s[1] == '/' {
        lemma_spans_le_len(s.skip(2));
    }
}

/// Stripping ignores never grows the text.
pub proof fn lemma_ignores_stripped_len(s: Seq<char>)
    ensures
        ignores_stripped(s).len() <= s.len(),
    decreases s.len(),
{
    if s.len() > 0 && is_space_char(s[0]) {
        lemma_ignores_stripped_len(s.skip(1));
    } else if s.len() >= 2 && s[0] == '/' && s[1] == '/' {
        lemma_spans_le_len(s.skip(2));
        lemma_ignores_stripped_len(s.skip((2 + line_span(s.skip(2))) as int));
    }
}

/// A cursor over the remaining source text.
pub struct Tokenizer<'s>(pub &'s str);

impl<'s> Tokenizer<'s> {
    /// Starts a tokenizer at the beginning of `s`.
    pub fn new(s: &'s str) -> (r: Self)
        ensures
            r.0@ == s@,
    {
        Tokenizer(s)
    }

    /// Whether the whole source has been consumed.
    pub fn no_chars(&self) -> (r: bool)
        ensures
            r == (self.0@.len() == 0),
    {
        self.0.unicode_len() == 0
    }

    /// Strips one leading occurrence of `c`.
    fn strip_char(&mut self, c: char) -> (r: bool)
        ensures
            r == (old(self).0@.len() >= 1 && old(self).0@[0] == c),
            r ==> final(self).0@ == old(self).0@.skip(1),
            !r ==> final(self).0@ == old(self).0@,
    {
        let n = self.0.unicode_len();
        if n >= 1 && self.0.get_char(0) == c {
            self.0 = self.0.substring_char(1, n);
            true
        } else {
            false
        }
    }

    /// Strips the two characters `c0` then `c1` when both lead.
    fn strip_two(&mut self, c0: char, c1: char) -> (r: bool)
        ensures
            r == (old(self).0@.len() >= 2 && old(self).0@[0] == c0 && old(self).0@[1] == c1),
            r ==> final(self).0@ == old(self).0@.skip(2),
            !r ==> final(self).0@ == old(self).0@,
    {
        let n = self.0.unicode_len();
        if n >= 2 && self.0.get_char(0) == c0 && self.0.get_char(1) == c1 {
            self.0 = self.0.substring_char(2, n);
            true
        } else {
            false
        }
    }

    /// Strips `p` when the remaining text starts with it.
    fn strip_prefix(&mut self, p: &'s str) -> (r: bool)
        ensures
            r == spec_starts_with(old(self).0@, p@),
            r ==> final(self).0@ == old(self).0@.skip(p@.len() as int),
            !r ==> final(self).0@ == old(self).0@,
    {
        let plen = p.unicode_len();
        let slen = self.0.unicode_len();
        if plen > slen {
            return false;
        }
        let head = self.0.substring_char(0, plen);
        if str_eq(head, p) {
            self.0 = self.0.substring_char(plen, slen);
            true
        } else {
            false
        }
    }

    /// Strips one leading line comment: two slashes and everything up to,
    /// but not including, the next line break.
    fn strip_comment(&mut self) -> (r: bool)
        ensures
            r == (old(self).0@.len() >= 2 && old(self).0@[0] == '/' && old(self).0@[1] == '/'),
            r ==> final(self).0@ == old(self).0@.skip(
                (2 + line_span(old(self).0@.skip(2))) as int,
            ),
            !r ==> final(self).0@ == old(self).0@,
    {
        let ghost orig = self.0@;
        if self.strip_two('/', '/') {
            proof {
                assert(self.0@.skip(0) =~= self.0@);
            }
            let e = span_line_from(self.0, 0);
            self.0 = self.0.substring_char(e, self.0.unicode_len());
            proof {
                assert(self.0@ =~= orig.skip((2 + line_span(orig.skip(2))) as int));
            }
            true
        } else {
            false
        }
    }

    /// Strips every leading blank and line comment.
    fn strip_ignores(&mut self)
        ensures
            final(self).0@ == ignores_stripped(old(self).0@),
    {
        loop
            invariant
                ignores_stripped(self.0@) == ignores_stripped(old(self).0@),
            decreases self.0@.len(),
        {
            let ghost prev = self.0@;
            let n = self.0.unicode_len();
            if n >= 1 {
                let c = self.0.get_char(0);
                if c == ' ' || c == '\n' || c == '\r' || c == '\t' {
                    self.0 = self.0.substring_char(1, n);
                    proof {
                        assert(self.0@ =~= prev.skip(1));
                    }
                    continue ;
                }
            }
            if !self.strip_comment() {
                proof {
                    assert(self.0@ == prev);
                    assert(!(prev.len() >= 2 && prev[0] == '/' && prev[1] == '/'));
                    assert(prev.len() > 0 ==> !is_space_char(prev[0]));
                    assert(ignores_stripped(prev) == prev);
                }
                return ;
            }
            proof {
                lemma_spans_le_len(prev.skip(2));
                assert(self.0@.len() < prev.len());
            }
        }
    }
}

/// The value of a run of decimal digits, most significant first.
pub open spec fn dec_value(s: Seq<char>) -> nat
    decreases s.len(),
{
    if s.len() == 0 {
        0
    } else {
        (dec_value(s.drop_last()) * 10 + (s.last() as u32 - 0x30)) as nat
    }
}

/// Every character before a digit span is a digit.
pub proof fn lemma_digit_span_chars(s: Seq<char>)
    ensures
        forall|j: int| 0 <= j < digit_span(s) ==> is_digit_char(s[j]),
    decreases s.len(),
{
    lemma_spans_le_len(s);
    if s.len() > 0 && is_digit_char(s[0]) {
        lemma_digit_span_chars(s.skip(1));
        lemma_spans_le_len(s.skip(1));
        assert forall|j: int| 0 <= j < digit_span(s) implies is_digit_char(s[j]) by {
            if j > 0 {
                assert(s.skip(1)[j - 1] == s[j]);
            }
        }
    }
}

/// A digit run's value only grows as the run extends.
pub proof fn lemma_dec_value_prefix(s: Seq<char>, i: int)
    requires
        0 <= i <= s.len(),
        forall|j: int| 0 <= j < s.len() ==> is_digit_char(s[j]),
    ensures
        dec_value(s.subrange(0, i)) <= dec_value(s),
    decreases s.len(),
{
    if i < s.len() {
        assert(forall|j: int|
            0 <= j < s.drop_last().len() ==> is_digit_char(#[trigger] s.drop_last()[j]));
        lemma_dec_value_prefix(s.drop_last(), i);
        assert(s.drop_last().subrange(0, i) =~= s.subrange(0, i));
    } else {
        assert(s.subrange(0, i) =~= s);
    }
}

impl<'s> Tokenizer<'s> {
    /// Strips one leading identifier: a run of letters and digits that
    /// does not start with a digit.
    fn strip_ident(&mut self) -> (r: Option<&'s str>)
        ensures
            ({
                let s = old(self).0@;
                let n = ident_span(s);
                if (s.len() > 0 && is_digit_char(s[0])) || n == 0 {
                    r is None && final(self).0@ == s
                } else {
                    r matches Some(id) && id@ == s.subrange(0, n as int) && final(self).0@
                        == s.skip(n as int)
                }
            }),
    {
        let n0 = self.0.unicode_len();
        if n0 >= 1 {
            let c = self.0.get_char(0);
            let cu = c as u32;
            if 0x30 <= cu && cu <= 0x39 {
                return None;
            }
        }
        proof {
            assert(self.0@.skip(0) =~= self.0@);
        }
        let e = span_ident_from(self.0, 0);
        if e == 0 {
            return None;
        }
        let id = self.0.substring_char(0, e);
        self.0 = self.0.substring_char(e, n0);
        Some(id)
    }

    /// Reads a comma-separated identifier list, ignoring blanks and
    /// comments around every token. An empty list is allowed; a trailing
    /// comma without an identifier after it ends the list.
    pub fn ident_list(&mut self) -> (r: Vec<&'s str>)
        ensures
            r@.map_values(|x: &'s str| x@) == ident_list_spec(old(self).0@).0,
            final(self).0@ == ident_list_spec(old(self).0@).1,
    {
        self.strip_ignores();
        let first = match self.strip_ident() {
            Some(id) => id,
            None => {
                let r: Vec<&'s str> = Vec::new();
                proof {
                    assert(r@.map_values(|x: &'s str| x@) =~= ident_list_spec(old(self).0@).0);
                }
                return r;
            },
        };
        let mut ids: Vec<&'s str> = Vec::new();
        ids.push(first);
        proof {
            assert(ids@.map_values(|x: &'s str| x@) =~= seq![first@]);
            assert(seq![first@] + ident_tail(self.0@).0 =~= ident_list_spec(old(self).0@).0);
        }
        loop
            invariant
                ident_list_spec(old(self).0@).0 == ids@.map_values(|x: &'s str| x@) + ident_tail(
                    self.0@,
                ).0,
                ident_list_spec(old(self).0@).1 == ident_tail(self.0@).1,
            decreases self.0@.len(),
        {
            let ghost prev = self.0@;
            self.strip_ignores();
            if !self.strip_char(',') {
                proof {
                    assert(ids@.map_values(|x: &'s str| x@) + ident_tail(prev).0 =~= ids@.map_values(
                        |x: &'s str| x@,
                    ));
                }
                return ids;
            }
            let ghost u = ignores_stripped(prev);
            self.strip_ignores();
            let ghost v = ignores_stripped(u.skip(1));
            let id = match self.strip_ident() {
                Some(id) => id,
                None => {
                    proof {
                        assert(ids@.map_values(|x: &'s str| x@) + ident_tail(prev).0
                            =~= ids@.map_values(|x: &'s str| x@));
                    }
                    return ids;
                },
            };
            proof {
                let f = |x: &'s str| x@;
                let n = ident_span(v);
                assert(ident_tail(prev).0 == seq![v.subrange(0, n as int)] + ident_tail(
                    v.skip(n as int),
                ).0);
                assert(ids@.push(id).map_values(f) =~= ids@.map_values(f).push(id@));
                assert(ids@.map_values(f).push(id@) + ident_tail(v.skip(n as int)).0
                    =~= ids@.map_values(f) + (seq![v.subrange(0, n as int)] + ident_tail(
                    v.skip(n as int),
                ).0));
                lemma_ignores_stripped_len(prev);
                lemma_ignores_stripped_len(u.skip(1));
                lemma_spans_le_len(v);
            }
            ids.push(id);
        }
    }

    /// Reads a type ascription: a colon, then everything up to the next
    /// declaration end or annotation mark.
    pub fn glsl_type_ascription(&mut self) -> (r: Option<&'s str>)
        ensures
            ({
                let t = ignores_stripped(old(self).0@);
                if t.len() == 0 || t[0] != ':' {
                    r is None && final(self).0@ == t
                } else {
                    let w = ignores_stripped(t.skip(1));
                    let n = type_span(w);
                    if n == 0 {
                        r is None && final(self).0@ == w
                    } else {
                        r matches Some(ty) && ty@ == w.subrange(0, n as int) && final(self).0@
                            == w.skip(n as int)
                    }
                }
            }),
    {
        self.strip_ignores();
        if !self.strip_char(':') {
            return None;
        }
        self.strip_ignores();
        proof {
            assert(self.0@.skip(0) =~= self.0@);
        }
        let e = span_type_from(self.0, 0);
        if e == 0 {
            return None;
        }
        let n0 = self.0.unicode_len();
        let ty = self.0.substring_char(0, e);
        self.0 = self.0.substring_char(e, n0);
        Some(ty)
    }

    /// Reads the keyword that opens a top-level declaration.
    pub fn declaration_op(&mut self) -> (r: Option<DeclarationOps>)
        ensures
            ({
                let t = ignores_stripped(old(self).0@);
                if spec_starts_with(t, "FragmentShader"@) {
                    r == Some(DeclarationOps::FragmentShader) && final(self).0@ == t.skip(
                        "FragmentShader"@.len() as int,
                    )
                } else if spec_starts_with(t, "VertexShader"@) {
                    r == Some(DeclarationOps::VertexShader) && final(self).0@ == t.skip(
                        "VertexShader"@.len() as int,
                    )
                } else if spec_starts_with(t, "VertexInput"@) {
                    r == Some(DeclarationOps::VertexInput) && final(self).0@ == t.skip(
                        "VertexInput"@.len() as int,
                    )
                } else if spec_starts_with(t, "Varyings"@) {
                    r == Some(DeclarationOps::Varyings) && final(self).0@ == t.skip(
                        "Varyings"@.len() as int,
                    )
                } else {
                    r is None && final(self).0@ == t
                }
            }),
    {
        self.strip_ignores();
        if self.strip_prefix("FragmentShader") {
            return Some(DeclarationOps::FragmentShader);
        }
        if self.strip_prefix("VertexShader") {
            return Some(DeclarationOps::VertexShader);
        }
        if self.strip_prefix("VertexInput") {
            return Some(DeclarationOps::VertexInput);
        }
        if self.strip_prefix("Varyings") {
            return Some(DeclarationOps::Varyings);
        }
        None
    }

    /// Reads an unsigned decimal index. A value that does not fit the
    /// machine's word is rejected without consuming the digits.
    pub fn index_number(&mut self) -> (r: Option<usize>)
        ensures
            ({
                let t = ignores_stripped(old(self).0@);
                let n = digit_span(t);
                let ds = t.subrange(0, n as int);
                if n > 0 && dec_value(ds) <= usize::MAX {
                    r == Some(dec_value(ds) as usize) && final(self).0@ == t.skip(n as int)
                } else {
                    r is None && final(self).0@ == t
                }
            }),
    {
        self.strip_ignores();
        proof {
            assert(self.0@.skip(0) =~= self.0@);
        }
        let ghost t = self.0@;
        let e = span_digit_from(self.0, 0);
        if e == 0 {
            return None;
        }
        proof {
            lemma_digit_span_chars(t);
        }
        let mut acc: usize = 0;
        let mut i: usize = 0;
        while i < e
            invariant
                i <= e,
                t == self.0@,
                t == ignores_stripped(old(self).0@),
                e == digit_span(t),
                e <= t.len(),
                forall|j: int| 0 <= j < digit_span(t) ==> is_digit_char(t[j]),
                acc == dec_value(t.subrange(0, i as int)),
            decreases e - i,
        {
            let c = self.0.get_char(i);
            let d: u32 = (c as u32) - 0x30;
            let du: usize = d as usize;
            if acc > (usize::MAX - du) / 10 {
                proof {
                    assert(acc * 10 + du > usize::MAX) by (nonlinear_arith)
                        requires
                            acc > (usize::MAX - du) / 10,
                            du <= 9,
                    ;
                    assert(t.subrange(0, i + 1).drop_last() =~= t.subrange(0, i as int));
                    assert(t.subrange(0, i + 1).last() == t[i as int]);
                    assert(dec_value(t.subrange(0, i + 1)) > usize::MAX);
                    let ds = t.subrange(0, digit_span(t) as int);
                    assert(forall|j: int| 0 <= j < ds.len() ==> is_digit_char(#[trigger] ds[j]));
                    lemma_dec_value_prefix(ds, i + 1);
                    assert(ds.subrange(0, i + 1) =~= t.subrange(0, i + 1));
                }
                return None;
            }
            proof {
                assert(t.subrange(0, i + 1).drop_last() =~= t.subrange(0, i as int));
                assert(t.subrange(0, i + 1).last() == t[i as int]);
            }
            acc = acc * 10 + du;
            i += 1;
        }
        let n0 = self.0.unicode_len();
        self.0 = self.0.substring_char(e, n0);
        proof {
            assert(self.0@ =~= t.skip(e as int));
        }
        Some(acc)
    }

    /// Reads a brace-delimited code block after an opening brace: the text
    /// up to the matching closing brace, briefly nesting on inner braces.
    /// The text after an opening brace must contain its matching close.
    pub fn codeblock(&mut self) -> (r: Option<&'s str>)
        requires
            ({
                let t = ignores_stripped(old(self).0@);
                (t.len() >= 1 && t[0] == '{') ==> close_pos(t.skip(1), 0) is Some
            }),
        ensures
            ({
                let t = ignores_stripped(old(self).0@);
                if t.len() >= 1 && t[0] == '{' {
                    close_pos(t.skip(1), 0) matches Some(k) && r matches Some(cb) && cb@ == t.skip(
                        1,
                    ).subrange(0, k as int) && final(self).0@ == t.skip(1).skip((k + 1) as int)
                } else {
                    r is None && final(self).0@ == t
                }
            }),
    {
        self.strip_ignores();
        if !self.strip_char('{') {
            return None;
        }
        let ghost t = ignores_stripped(old(self).0@);
        let ghost s = self.0@;
        proof {
            lemma_close_pos_le_len(s, 0);
            assert(s.skip(0) =~= s);
            match close_pos(s, 0) {
                Option::Some(k) => {
                    assert((0 + k) as nat == k);
                },
                Option::None => {},
            }
        }
        let n = self.0.unicode_len();
        let mut i: usize = 0;
        let mut depth: usize = 0;
        loop
            invariant
                t == ignores_stripped(old(self).0@),
                t.len() >= 1 && t[0] == '{',
                s == t.skip(1),
                s == self.0@,
                n == s.len(),
                i <= n,
                depth <= i,
                close_pos(s, 0) == match close_pos(s.skip(i as int), depth as nat) {
                    Option::Some(k) => Option::Some((i + k) as nat),
                    Option::None => Option::None,
                },
                close_pos(s, 0) is Some,
            decreases n - i,
        {
            proof {
                if i >= n {
                    assert(close_pos(s.skip(i as int), depth as nat) is None);
                    assert(false);
                }
            }
            let c = self.0.get_char(i);
            proof {
                assert(s.skip(i as int)[0] == s[i as int]);
                assert(s.skip(i as int).skip(1) =~= s.skip(i as int + 1));
                lemma_close_pos_le_len(s.skip(i as int), depth as nat);
            }
            if c == '}' && depth == 0 {
                let cb = self.0.substring_char(0, i);
                self.0 = self.0.substring_char(i + 1, n);
                proof {
                    assert(close_pos(s.skip(i as int), 0) == Option::Some(0 as nat));
                    assert(cb@ =~= t.skip(1).subrange(0, i as int));
                    assert(self.0@ =~= t.skip(1).skip(i as int + 1));
                }
                return Some(cb);
            }
            if c == '{' {
                depth = depth + 1;
            } else if c == '}' {
                depth = depth - 1;
            }
            i = i + 1;
        }
    }

    /// Strips a block opener after ignores.
    pub fn block_start(&mut self) -> (r: bool)
        ensures
            ({
                let t = ignores_stripped(old(self).0@);
                r == (t.len() >= 1 && t[0] == '{') && if r {
                    final(self).0@ == t.skip(1)
                } else {
                    final(self).0@ == t
                }
            }),
    {
        self.strip_ignores();
        self.strip_char('{')
    }

    /// Strips a block closer after ignores.
    pub fn block_end(&mut self) -> (r: bool)
        ensures
            ({
                let t = ignores_stripped(old(self).0@);
                r == (t.len() >= 1 && t[0] == '}') && if r {
                    final(self).0@ == t.skip(1)
                } else {
                    final(self).0@ == t
                }
            }),
    {
        self.strip_ignores();
        self.strip_char('}')
    }

    /// Strips a bracket opener after ignores.
    pub fn bracket_start(&mut self) -> (r: bool)
        ensures
            ({
                let t = ignores_stripped(old(self).0@);
                r == (t.len() >= 1 && t[0] == '[') && if r {
                    final(self).0@ == t.skip(1)
                } else {
                    final(self).0@ == t
                }
            }),
    {
        self.strip_ignores();
        self.strip_char('[')
    }

    /// Strips a bracket closer after ignores.
    pub fn bracket_end(&mut self) -> (r: bool)
        ensures
            ({
                let t = ignores_stripped(old(self).0@);
                r == (t.len() >= 1 && t[0] == ']') && if r {
                    final(self).0@ == t.skip(1)
                } else {
                    final(self).0@ == t
                }
            }),
    {
        self.strip_ignores();
        self.strip_char(']')
    }

    /// Strips the end of a declaration after ignores.
    pub fn declaration_end(&mut self) -> (r: bool)
        ensures
            ({
                let t = ignores_stripped(old(self).0@);
                r == (t.len() >= 1 && t[0] == ';') && if r {
                    final(self).0@ == t.skip(1)
                } else {
                    final(self).0@ == t
                }
            }),
    {
        self.strip_ignores();
        self.strip_char(';')
    }

    /// Strips an arrow after ignores.
    pub fn arrow(&mut self) -> (r: bool)
        ensures
            ({
                let t = ignores_stripped(old(self).0@);
                r == (t.len() >= 2 && t[0] == '-' && t[1] == '>') && if r {
                    final(self).0@ == t.skip(2)
                } else {
                    final(self).0@ == t
                }
            }),
    {
        self.strip_ignores();
        self.strip_two('-', '>')
    }
}

/// The position of the closing brace that matches an opener `depth` levels
/// out, scanning `s` from the front; inner braces nest.
pub open spec fn close_pos(s: Seq<char>, depth: nat) -> Option<nat>
    decreases s.len(),
{
    if s.len() == 0 {
        Option::None
    } else if s[0] == '}' && depth == 0 {
        Option::Some(0 as nat)
    } else {
        let d2: nat = if s[0] == '{' {
            depth + 1
        } else if s[0] == '}' {
            (depth - 1) as nat
        } else {
            depth
        };
        match close_pos(s.skip(1), d2) {
            Option::Some(k) => Option::Some(k + 1),
            Option::None => Option::None,
        }
    }
}

/// A matching close lies within the input.
pub proof fn lemma_close_pos_le_len(s: Seq<char>, depth: nat)
    ensures
        close_pos(s, depth) matches Some(k) ==> k < s.len(),
    decreases s.len(),
{
    if s.len() > 0 && !(s[0] == '}' && depth == 0) {
        let d2: nat = if s[0] == '{' {
            depth + 1
        } else if s[0] == '}' {
            (depth - 1) as nat
        } else {
            depth
        };
        lemma_close_pos_le_len(s.skip(1), d2);
    }
}

/// The identifiers read after a leading one, each preceded by a comma, and
/// the text left when the list ends.
pub open spec fn ident_tail(s: Seq<char>) -> (Seq<Seq<char>>, Seq<char>)
    decreases s.len(),
    via ident_tail_decreases
{
    let u = ignores_stripped(s);
    if u.len() == 0 || u[0] != ',' {
        (Seq::empty(), u)
    } else {
        let v = ignores_stripped(u.skip(1));
        if (v.len() > 0 && is_digit_char(v[0])) || ident_span(v) == 0 {
            (Seq::empty(), v)
        } else {
            let n = ident_span(v);
            let rest = ident_tail(v.skip(n as int));
            (seq![v.subrange(0, n as int)] + rest.0, rest.1)
        }
    }
}

#[via_fn]
proof fn ident_tail_decreases(s: Seq<char>) {
    lemma_ignores_stripped_len(s);
    let u = ignores_stripped(s);
    if !(u.len() == 0 || u[0] != ',') {
        lemma_ignores_stripped_len(u.skip(1));
        lemma_spans_le_len(ignores_stripped(u.skip(1)));
    }
}

/// The identifier list at the front of `s`: the identifiers in order and
/// the text left after the list.
pub open spec fn ident_list_spec(s: Seq<char>) -> (Seq<Seq<char>>, Seq<char>) {
    let t = ignores_stripped(s);
    if (t.len() > 0 && is_digit_char(t[0])) || ident_span(t) == 0 {
        (Seq::empty(), t)
    } else {
        let n = ident_span(t);
        let rest = ident_tail(t.skip(n as int));
        (seq![t.subrange(0, n as int)] + rest.0, rest.1)
    }
}

/// The position just past the longest identifier run starting at `from`.
fn span_ident_from(s: &str, from: usize) -> (r: usize)
    requires
        from <= s@.len(),
    ensures
        r == from + ident_span(s@.skip(from as int)),
        r <= s@.len(),
{
    let n = s.unicode_len();
    let mut i: usize = from;
    loop
        invariant
            from <= i <= n,
            n == s@.len(),
            ident_span(s@.skip(from as int)) == (i - from) + ident_span(s@.skip(i as int)),
        decreases n - i,
    {
        let more: bool = if i < n {
            let cu = s.get_char(i) as u32;
            (0x30 <= cu && cu <= 0x39) || (0x41 <= cu && cu <= 0x5a) || (0x61 <= cu && cu <= 0x7a)
        } else {
            false
        };
        if more {
            proof {
                assert(s@.skip(i as int)[0] == s@[i as int]);
                assert(s@.skip(i as int).skip(1) =~= s@.skip(i as int + 1));
            }
            i += 1;
        } else {
            proof {
                if i < n {
                    assert(s@.skip(i as int)[0] == s@[i as int]);
                }
                assert(ident_span(s@.skip(i as int)) == 0);
            }
            return i;
        }
    }
}

/// The position just past the longest digit run starting at `from`.
fn span_digit_from(s: &str, from: usize) -> (r: usize)
    requires
        from <= s@.len(),
    ensures
        r == from + digit_span(s@.skip(from as int)),
        r <= s@.len(),
{
    let n = s.unicode_len();
    let mut i: usize = from;
    loop
        invariant
            from <= i <= n,
            n == s@.len(),
            digit_span(s@.skip(from as int)) == (i - from) + digit_span(s@.skip(i as int)),
        decreases n - i,
    {
        let more: bool = if i < n {
            let cu = s.get_char(i) as u32;
            0x30 <= cu && cu <= 0x39
        } else {
            false
        };
        if more {
            proof {
                assert(s@.skip(i as int)[0] == s@[i as int]);
                assert(s@.skip(i as int).skip(1) =~= s@.skip(i as int + 1));
            }
            i += 1;
        } else {
            proof {
                if i < n {
                    assert(s@.skip(i as int)[0] == s@[i as int]);
                }
                assert(digit_span(s@.skip(i as int)) == 0);
            }
            return i;
        }
    }
}

/// The position just past the longest run of type characters starting at
/// `from`.
fn span_type_from(s: &str, from: usize) -> (r: usize)
    requires
        from <= s@.len(),
    ensures
        r == from + type_span(s@.skip(from as int)),
        r <= s@.len(),
{
    let n = s.unicode_len();
    let mut i: usize = from;
    loop
        invariant
            from <= i <= n,
            n == s@.len(),
            type_span(s@.skip(from as int)) == (i - from) + type_span(s@.skip(i as int)),
        decreases n - i,
    {
        let more: bool = if i < n {
            let c = s.get_char(i);
            c != ';' && c != '@'
        } else {
            false
        };
        if more {
            proof {
                assert(s@.skip(i as int)[0] == s@[i as int]);
                assert(s@.skip(i as int).skip(1) =~= s@.skip(i as int + 1));
            }
            i += 1;
        } else {
            proof {
                if i < n {
                    assert(s@.skip(i as int)[0] == s@[i as int]);
                }
                assert(type_span(s@.skip(i as int)) == 0);
            }
            return i;
        }
    }
}

/// The position just past the longest run of non-break characters that
/// starts at `from`.
fn span_line_from(s: &str, from: usize) -> (r: usize)
    requires
        from <= s@.len(),
    ensures
        r == from + line_span(s@.skip(from as int)),
        r <= s@.len(),
{
    let n = s.unicode_len();
    let mut i: usize = from;
    loop
        invariant
            from <= i <= n,
            n == s@.len(),
            line_span(s@.skip(from as int)) == (i - from) + line_span(s@.skip(i as int)),
        decreases n - i,
    {
        if i < n && s.get_char(i) != '\n' {
            proof {
                assert(s@.skip(i as int)[0] == s@[i as int]);
                assert(s@.skip(i as int).skip(1) =~= s@.skip(i as int + 1));
            }
            i += 1;
        } else {
            proof {
                if i < n {
                    assert(s@.skip(i as int)[0] == s@[i as int]);
                }
                assert(line_span(s@.skip(i as int)) == 0);
            }
            return i;
        }
    }
}

} // verus!
