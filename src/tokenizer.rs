use crate::dom::Attribute;
use crate::util::chars_eq;
use vstd::prelude::*;

verus! {

/// One lexical unit of the markup.
#[derive(Debug)]
pub enum Token {
    StartTag { name: Vec<char>, attributes: Vec<Attribute>, self_closing: bool },
    EndTag { name: Vec<char> },
    Character { c: char },
    Comment { data: Vec<char> },
    EndOfStream,
}

/// Space characters that separate the parts of a tag.
pub open spec fn is_space(c: char) -> bool {
    c == ' ' || c == '\t' || c == '\n' || c == '\r' || c == '\x0C'
}

/// Characters that may continue a tag or attribute name.
pub open spec fn is_name_char(c: char) -> bool {
    !is_space(c) && c != '/' && c != '>' && c != '='
}

pub open spec fn is_ascii_alpha(c: char) -> bool {
    ('a' <= c && c <= 'z') || ('A' <= c && c <= 'Z')
}

/// ASCII upper case letters become lower case; everything else is kept.
pub open spec fn lower(c: char) -> char {
    if 'A' <= c && c <= 'Z' {
        ((c as u8) + 32) as char
    } else {
        c
    }
}

pub open spec fn lowered(s: Seq<char>) -> Seq<char> {
    s.map_values(|c: char| lower(c))
}

/// First index from `i` on that does not continue a name.
pub open spec fn name_end(s: Seq<char>, i: int) -> int
    decreases s.len() - i,
{
    if i >= s.len() || !is_name_char(s[i]) {
        i
    } else {
        name_end(s, i + 1)
    }
}

/// Index just past the first `c` from `i` on, or the end of `s`.
pub open spec fn past(s: Seq<char>, i: int, c: char) -> int
    decreases s.len() - i,
{
    if i >= s.len() {
        s.len() as int
    } else if s[i] == c {
        i + 1
    } else {
        past(s, i + 1, c)
    }
}

/// First index from `i` on where `-->` starts, or the end of `s`.
pub open spec fn comment_end(s: Seq<char>, i: int) -> int
    decreases s.len() - i,
{
    if i >= s.len() {
        s.len() as int
    } else if i + 3 <= s.len() && s[i] == '-' && s[i + 1] == '-' && s[i + 2] == '>' {
        i
    } else {
        comment_end(s, i + 1)
    }
}

/// `s` holds, at `i`, the end tag `</name` followed by a character that ends a name.
pub open spec fn end_tag_at(s: Seq<char>, i: int, name: Seq<char>) -> bool {
    &&& i + 2 + name.len() <= s.len()
    &&& s[i] == '<'
    &&& s[i + 1] == '/'
    &&& lowered(s.subrange(i + 2, i + 2 + name.len())) == name
    &&& name_end(s, i + 2 + name.len()) == i + 2 + name.len()
}


/// First index from `i` on that holds a space or `>`, or the end of `s`.
pub open spec fn value_end(s: Seq<char>, i: int) -> int
    decreases s.len() - i,
{
    if i >= s.len() || is_space(s[i]) || s[i] == '>' {
        i
    } else {
        value_end(s, i + 1)
    }
}

/// The value of an attribute whose name ends at `i`, and where reading goes on:
/// after `=` a quoted value runs to its closing quote (or the end of `s`), an
/// unquoted one to the next space or `>`; without `=` the value is empty.
pub open spec fn attr_value(s: Seq<char>, i: int) -> (Seq<char>, int) {
    if i < s.len() && s[i] == '=' {
        let k = i + 1;
        if k < s.len() && (s[k] == '"' || s[k] == '\'') {
            let close = past(s, k + 1, s[k]);
            let stop = if close > k + 1 && s[close - 1] == s[k] {
                close - 1
            } else {
                close
            };
            (s.subrange(k + 1, stop), close)
        } else {
            (s.subrange(k, value_end(s, k)), value_end(s, k))
        }
    } else {
        (Seq::empty(), i)
    }
}

/// What follows a tag name from `j` on: the attributes as (name, value) pairs
/// with lowered names, the index just past the tag, and whether it closes
/// itself with `/>`. Stray `/`, `=` and spaces are skipped; the end of `s`
/// ends the tag.
pub open spec fn tag_rest(s: Seq<char>, j: int) -> (Seq<(Seq<char>, Seq<char>)>, int, bool)
    decreases s.len() - j,
{
    if j >= s.len() {
        (Seq::empty(), s.len() as int, false)
    } else if s[j] == '>' {
        (Seq::empty(), j + 1, false)
    } else if s[j] == '/' && j + 1 < s.len() && s[j + 1] == '>' {
        (Seq::empty(), j + 2, true)
    } else if s[j] == '/' || is_space(s[j]) || s[j] == '=' {
        tag_rest(s, j + 1)
    } else {
        let ne = name_end(s, j);
        let v = attr_value(s, ne);
        if v.1 <= j || v.1 > s.len() {
            (Seq::empty(), s.len() as int, false)
        } else {
            let rest = tag_rest(s, v.1);
            (seq![(lowered(s.subrange(j, ne)), v.0)] + rest.0, rest.1, rest.2)
        }
    }
}

/// The attributes as (name, value) pairs.
pub open spec fn attr_pairs(a: Seq<Attribute>) -> Seq<(Seq<char>, Seq<char>)> {
    a.map_values(|x: Attribute| (x.name@, x.value@))
}

/// What markup mode reads at `p` (a character of `s` that exists): the token and
/// the position after it.
pub open spec fn markup_token(s: Seq<char>, p: int, r: &Token, q: int) -> bool {
    if s[p] != '<' {
        r matches Token::Character { c } && c == s[p] && q == p + 1
    } else if p + 1 < s.len() && is_ascii_alpha(s[p + 1]) {
        let rest = tag_rest(s, name_end(s, p + 1));
        &&& r matches Token::StartTag { name, attributes, self_closing } && name@ == lowered(
            s.subrange(p + 1, name_end(s, p + 1)),
        ) && attr_pairs(attributes@) == rest.0 && *self_closing == rest.2
        &&& q == rest.1
    } else if p + 2 < s.len() && s[p + 1] == '/' && is_ascii_alpha(s[p + 2]) {
        &&& r matches Token::EndTag { name } && name@ == lowered(
            s.subrange(p + 2, name_end(s, p + 2)),
        )
        &&& q == past(s, name_end(s, p + 2), '>')
    } else if p + 3 < s.len() && s[p + 1] == '!' && s[p + 2] == '-' && s[p + 3] == '-' {
        let e = comment_end(s, p + 4);
        &&& r matches Token::Comment { data } && data@ == s.subrange(p + 4, e)
        &&& q == if e + 3 <= s.len() { e + 3 } else { s.len() as int }
    } else {
        r matches Token::Character { c } && c == '<' && q == p + 1
    }
}

/// What raw-text mode, ended by `</name`, reads at `p` (a character of `s`).
pub open spec fn raw_token(s: Seq<char>, p: int, name: Seq<char>, r: &Token, q: int) -> bool {
    if end_tag_at(s, p, name) {
        &&& r matches Token::EndTag { name: n } && n@ == name
        &&& q == past(s, p + 2 + name.len(), '>')
    } else {
        r matches Token::Character { c } && c == s[p] && q == p + 1
    }
}

/// A lexer over decoded characters. It reads markup, or, in raw-text mode, plain
/// characters up to the end tag of the raw-text element.
pub struct Tokenizer {
    input: Vec<char>,
    pos: usize,
    raw_end: Option<Vec<char>>,
}

impl Tokenizer {
    pub closed spec fn input(&self) -> Seq<char> {
        self.input@
    }

    pub closed spec fn pos(&self) -> int {
        self.pos as int
    }

    /// The element name that ends raw-text mode, when in it.
    pub closed spec fn raw_end(&self) -> Option<Seq<char>> {
        match self.raw_end {
            Some(n) => Some(n@),
            None => None,
        }
    }

    pub open spec fn wf(&self) -> bool {
        &&& 0 <= self.pos() <= self.input().len()
        &&& self.raw_end() matches Some(n) ==> n.len() > 0
    }

    /// A tokenizer at the start of `input`, in markup mode.
    pub fn new(input: Vec<char>) -> (r: Tokenizer)
        ensures
            r.wf(),
            r.input() == input@,
            r.pos() == 0,
            r.raw_end() == None::<Seq<char>>,
    {
        Tokenizer { input, pos: 0, raw_end: None }
    }

    /// How many characters have been consumed.
    pub fn position(&self) -> (r: usize)
        ensures
            r == self.pos(),
    {
        self.pos
    }

    /// Whether raw-text mode is on.
    pub fn in_raw_text(&self) -> (r: bool)
        ensures
            r == self.raw_end() is Some,
    {
        self.raw_end.is_some()
    }

    /// Switches to raw-text mode until the end tag `</name`.
    pub fn set_raw_text(&mut self, name: Vec<char>)
        requires
            old(self).wf(),
            name@.len() > 0,
        ensures
            final(self).wf(),
            final(self).input() == old(self).input(),
            final(self).pos() == old(self).pos(),
            final(self).raw_end() == Some(name@),
    {
        self.raw_end = Some(name);
    }

    /// One read of `next_token`: from `pre` to `post`, yielding `r`. At the end of
    /// the input it yields `EndOfStream` and stays; every other token consumes at
    /// least one character, a start tag at least two; reading the end tag of raw
    /// text leaves raw-text mode.
    pub open spec fn reads(pre: &Tokenizer, post: &Tokenizer, r: &Token) -> bool {
        &&& post.input() == pre.input()
        &&& (*r is EndOfStream) <==> pre.pos() == pre.input().len()
        &&& *r is EndOfStream ==> post.pos() == pre.pos() && post.raw_end() == pre.raw_end()
        &&& !(*r is EndOfStream) ==> post.pos() > pre.pos()
        &&& *r is StartTag ==> post.pos() >= pre.pos() + 2
        &&& pre.pos() < pre.input().len() ==> match pre.raw_end() {
            Some(n) => raw_token(pre.input(), pre.pos(), n, r, post.pos()) && (if *r is EndTag {
                post.raw_end() == None::<Seq<char>>
            } else {
                post.raw_end() == pre.raw_end()
            }),
            None => markup_token(pre.input(), pre.pos(), r, post.pos()) && post.raw_end() == None::<
                Seq<char>,
            >,
        }
    }

    /// Reads the next token.
    pub fn next_token(&mut self) -> (r: Token)
        requires
            old(self).wf(),
        ensures
            final(self).wf(),
            Self::reads(old(self), final(self), &r),
    {
        let len = self.input.len();
        let p = self.pos;
        if p == len {
            return Token::EndOfStream;
        }
        let raw = self.raw_text_end_at(p);
        match raw {
            Some(name_len) => {
                let q = self.scan_past(p + 2 + name_len, '>');
                let name = self.lowered_range(p + 2, p + 2 + name_len);
                self.raw_end = None;
                self.pos = q;
                return Token::EndTag { name };
            },
            None => {},
        }
        if self.raw_end.is_some() || self.input[p] != '<' {
            self.pos = p + 1;
            return Token::Character { c: self.input[p] };
        }
        if len - p > 1 && is_ascii_alpha_exec(self.input[p + 1]) {
            return self.read_start_tag();
        }
        if len - p > 2 && self.input[p + 1] == '/' && is_ascii_alpha_exec(self.input[p + 2]) {
            let e = self.scan_name_end(p + 2);
            let name = self.lowered_range(p + 2, e);
            self.pos = self.scan_past(e, '>');
            return Token::EndTag { name };
        }
        if len - p > 3 && self.input[p + 1] == '!' && self.input[p + 2] == '-' && self.input[p
            + 3] == '-' {
            let e = self.scan_comment_end(p + 4);
            let data = self.copy_range(p + 4, e);
            self.pos = if len - e >= 3 {
                e + 3
            } else {
                len
            };
            return Token::Comment { data };
        }
        self.pos = p + 1;
        Token::Character { c: '<' }
    }

    /// In raw-text mode, the length of the name when its end tag stands at `p`.
    fn raw_text_end_at(&self, p: usize) -> (r: Option<usize>)
        requires
            self.wf(),
            p < self.input@.len(),
        ensures
            r is Some <==> (self.raw_end() matches Some(n) && end_tag_at(self.input@, p as int, n)),
            r matches Some(k) ==> self.raw_end() matches Some(n) && k == n.len(),
    {
        match &self.raw_end {
            None => None,
            Some(name) => {
                let n = name.len();
                let len = self.input.len();
                if len - p < 2 || len - p - 2 < n || self.input[p] != '<' || self.input[p + 1]
                    != '/' {
                    return None;
                }
                let got = self.lowered_range(p + 2, p + 2 + n);
                if !chars_eq(&got, name) {
                    return None;
                }
                if self.scan_name_end(p + 2 + n) != p + 2 + n {
                    return None;
                }
                Some(n)
            },
        }
    }

    /// Reads a start tag whose name begins at `pos + 1`, with its attributes.
    fn read_start_tag(&mut self) -> (r: Token)
        requires
            old(self).wf(),
            old(self).raw_end() is None,
            old(self).pos() + 1 < old(self).input().len(),
            old(self).input()[old(self).pos()] == '<',
            is_ascii_alpha(old(self).input()[old(self).pos() + 1]),
        ensures
            final(self).wf(),
            final(self).input() == old(self).input(),
            final(self).raw_end() is None,
            final(self).pos() >= old(self).pos() + 2,
            markup_token(old(self).input(), old(self).pos(), &r, final(self).pos()),
    {
        let len = self.input.len();
        let p = self.pos;
        let e = self.scan_name_end(p + 1);
        let name = self.lowered_range(p + 1, e);
        let mut attributes: Vec<Attribute> = Vec::new();
        let mut self_closing = false;
        let mut j = e;
        while j < len
            invariant_except_break
                !self_closing,
                attr_pairs(attributes@) + tag_rest(self.input@, j as int).0 == tag_rest(
                    self.input@,
                    e as int,
                ).0,
                tag_rest(self.input@, j as int).1 == tag_rest(self.input@, e as int).1,
                tag_rest(self.input@, j as int).2 == tag_rest(self.input@, e as int).2,
            invariant
                len == self.input@.len(),
                e <= j <= len,
            ensures
                e <= j <= len,
                attr_pairs(attributes@) == tag_rest(self.input@, e as int).0,
                j == tag_rest(self.input@, e as int).1,
                self_closing == tag_rest(self.input@, e as int).2,
            decreases len - j,
        {
            let c = self.input[j];
            let ghost before = attributes@;
            if c == '>' {
                j += 1;
                assert(attr_pairs(attributes@) =~= attr_pairs(attributes@) + Seq::<
                    (Seq<char>, Seq<char>),
                >::empty());
                break;
            } else if c == '/' {
                if j + 1 < len && self.input[j + 1] == '>' {
                    self_closing = true;
                    j += 2;
                    assert(attr_pairs(attributes@) =~= attr_pairs(attributes@) + Seq::<
                        (Seq<char>, Seq<char>),
                    >::empty());
                    break;
                }
                j += 1;
            } else if is_space_exec(c) || c == '=' {
                j += 1;
            } else {
                let ghost j0 = j as int;
                let ne = self.scan_name_end(j);
                let attr_name = self.lowered_range(j, ne);
                j = ne;
                let mut value: Vec<char> = Vec::new();
                if j < len && self.input[j] == '=' {
                    j += 1;
                    if j < len && (self.input[j] == '"' || self.input[j] == '\'') {
                        let quote = self.input[j];
                        let close = self.scan_past(j + 1, quote);
                        let stop = if close > j + 1 && self.input[close - 1] == quote {
                            close - 1
                        } else {
                            close
                        };
                        value = self.copy_range(j + 1, stop);
                        j = close;
                    } else {
                        let ve = self.scan_value_end(j);
                        value = self.copy_range(j, ve);
                        j = ve;
                    }
                }
                proof {
                    let v = attr_value(self.input@, ne as int);
                    assert(v.0 == value@ && v.1 == j);
                }
                attributes.push(Attribute { name: attr_name, value });
                proof {
                    let pair = (lowered(self.input@.subrange(j0, ne as int)), value@);
                    assert(attr_pairs(attributes@) =~= attr_pairs(before).push(pair));
                    let later = tag_rest(self.input@, j as int).0;
                    assert(tag_rest(self.input@, j0).0 == seq![pair] + later);
                    assert(attr_pairs(before).push(pair) + later =~= attr_pairs(before) + (seq![pair]
                        + later));
                }
            }
        }
        if j >= len {
            assert(attr_pairs(attributes@) =~= attr_pairs(attributes@) + Seq::<
                (Seq<char>, Seq<char>),
            >::empty());
        }
        self.pos = j;
        Token::StartTag { name, attributes, self_closing }
    }

    /// End of an unquoted attribute value: the first space or `>` from `i` on.
    fn scan_value_end(&self, i: usize) -> (r: usize)
        requires
            i <= self.input@.len(),
        ensures
            r == value_end(self.input@, i as int),
            i <= r <= self.input@.len(),
    {
        let mut j = i;
        while j < self.input.len() && !is_space_exec(self.input[j]) && self.input[j] != '>'
            invariant
                i <= j <= self.input@.len(),
                value_end(self.input@, j as int) == value_end(self.input@, i as int),
            decreases self.input@.len() - j,
        {
            j += 1;
        }
        j
    }

    fn scan_name_end(&self, i: usize) -> (r: usize)
        requires
            i <= self.input@.len(),
        ensures
            r == name_end(self.input@, i as int),
            i <= r <= self.input@.len(),
            i < self.input@.len() && is_name_char(self.input@[i as int]) ==> r > i,
    {
        let mut j = i;
        while j < self.input.len() && is_name_char_exec(self.input[j])
            invariant
                i <= j <= self.input@.len(),
                name_end(self.input@, j as int) == name_end(self.input@, i as int),
            decreases self.input@.len() - j,
        {
            j += 1;
        }
        j
    }

    fn scan_past(&self, i: usize, c: char) -> (r: usize)
        requires
            i <= self.input@.len(),
        ensures
            r == past(self.input@, i as int, c),
            i <= r <= self.input@.len(),
            r > i || i == self.input@.len(),
    {
        let mut j = i;
        while j < self.input.len() && self.input[j] != c
            invariant
                i <= j <= self.input@.len(),
                past(self.input@, j as int, c) == past(self.input@, i as int, c),
            decreases self.input@.len() - j,
        {
            j += 1;
        }
        if j < self.input.len() {
            j + 1
        } else {
            j
        }
    }

    fn scan_comment_end(&self, i: usize) -> (r: usize)
        requires
            i <= self.input@.len(),
        ensures
            r == comment_end(self.input@, i as int),
            i <= r <= self.input@.len(),
    {
        let mut j = i;
        while j < self.input.len() && !(self.input.len() - j >= 3 && self.input[j] == '-'
            && self.input[j + 1] == '-' && self.input[j + 2] == '>')
            invariant
                i <= j <= self.input@.len(),
                comment_end(self.input@, j as int) == comment_end(self.input@, i as int),
            decreases self.input@.len() - j,
        {
            j += 1;
        }
        j
    }

    /// The characters `input[a..b]`, lowered.
    fn lowered_range(&self, a: usize, b: usize) -> (r: Vec<char>)
        requires
            a <= b <= self.input@.len(),
        ensures
            r@ == lowered(self.input@.subrange(a as int, b as int)),
    {
        let mut out: Vec<char> = Vec::new();
        let mut j = a;
        while j < b
            invariant
                a <= j <= b <= self.input@.len(),
                out@ == lowered(self.input@.subrange(a as int, j as int)),
            decreases b - j,
        {
            out.push(lower_exec(self.input[j]));
            proof {
                assert(self.input@.subrange(a as int, j + 1) == self.input@.subrange(
                    a as int,
                    j as int,
                ).push(self.input@[j as int]));
            }
            j += 1;
            assert(out@ =~= lowered(self.input@.subrange(a as int, j as int)));
        }
        out
    }

    /// The characters `input[a..b]`.
    fn copy_range(&self, a: usize, b: usize) -> (r: Vec<char>)
        requires
            a <= b <= self.input@.len(),
        ensures
            r@ == self.input@.subrange(a as int, b as int),
    {
        let mut out: Vec<char> = Vec::new();
        let mut j = a;
        while j < b
            invariant
                a <= j <= b <= self.input@.len(),
                out@ == self.input@.subrange(a as int, j as int),
            decreases b - j,
        {
            out.push(self.input[j]);
            j += 1;
            assert(out@ =~= self.input@.subrange(a as int, j as int));
        }
        out
    }
}

/// Executable form of `is_space`.
pub fn is_space_exec(c: char) -> (r: bool)
    ensures
        r == is_space(c),
{
    c == ' ' || c == '\t' || c == '\n' || c == '\r' || c == '\x0C'
}

/// Executable form of `is_name_char`.
pub fn is_name_char_exec(c: char) -> (r: bool)
    ensures
        r == is_name_char(c),
{
    !is_space_exec(c) && c != '/' && c != '>' && c != '='
}

/// Executable form of `is_ascii_alpha`.
pub fn is_ascii_alpha_exec(c: char) -> (r: bool)
    ensures
        r == is_ascii_alpha(c),
{
    ('a' <= c && c <= 'z') || ('A' <= c && c <= 'Z')
}

/// Executable form of `lower`.
pub fn lower_exec(c: char) -> (r: char)
    ensures
        r == lower(c),
{
    if 'A' <= c && c <= 'Z' {
        ((c as u8) + 32) as char
    } else {
        c
    }
}

} // verus!
