//! Tokens and the tokenizers that produce them.
use vstd::prelude::*;
use vstd::string::StringSliceAdditionalSpecFns;
use vstd::utf8::encode_utf8;
use regex::Regex;

verus! {

/// A single token: its text, where it starts in the source, and its position
/// among the tokens of that source.
#[derive(Clone, Debug)]
pub struct Token {
    /// The text of the token.
    pub term: String,
    /// The starting offset of the token in the source text.
    pub offset: usize,
    /// The index of the token among all tokens of the source.
    pub index: usize,
}

impl Token {
    /// A token with the given parts.
    pub fn new(term: String, offset: usize, index: usize) -> (r: Token)
        ensures
            r.term == term,
            r.offset == offset,
            r.index == index,
    {
        Token { term, offset, index }
    }
}

/// Anything which can turn a raw string into a sequence of tokens.
pub trait Tokenizer<'a> {
    /// What hands out the tokens one by one.
    type TokenIter;

    /// Takes an input string and returns what hands out its tokens.
    fn tokenize(&self, input: &'a str) -> Self::TokenIter;
}

/// A rule that marks some characters as separators between tokens.
pub trait CharFilter {
    spec fn separates(&self, c: char) -> bool;

    fn is_separator(&self, c: char) -> (r: bool)
        ensures
            r == self.separates(c),
    ;
}

/// The characters that Unicode gives the White_Space property.
pub open spec fn white_space(c: char) -> bool {
    let u = c as u32;
    (0x9 <= u && u <= 0xd) || u == 0x20 || u == 0x85 || u == 0xa0 || u == 0x1680 || (0x2000 <= u
        && u <= 0x200a) || u == 0x2028 || u == 0x2029 || u == 0x202f || u == 0x205f || u == 0x3000
}

/// Whether `c` is a white-space character.
pub fn is_whitespace(c: char) -> (r: bool)
    ensures
        r == white_space(c),
{
    let u = c as u32;
    (0x9 <= u && u <= 0xd) || u == 0x20 || u == 0x85 || u == 0xa0 || u == 0x1680 || (0x2000 <= u
        && u <= 0x200a) || u == 0x2028 || u == 0x2029 || u == 0x202f || u == 0x205f || u == 0x3000
}

/// Separates tokens at white space.
pub struct Whitespace;

impl CharFilter for Whitespace {
    open spec fn separates(&self, c: char) -> bool {
        white_space(c)
    }

    fn is_separator(&self, c: char) -> (r: bool) {
        is_whitespace(c)
    }
}

/// The first position at or after `p` that holds no separator, or the end.
pub open spec fn skip_separators<F: CharFilter>(f: F, s: Seq<char>, p: int) -> int
    decreases s.len() - p,
{
    if p >= s.len() {
        s.len() as int
    } else if !f.separates(s[p]) {
        p
    } else {
        skip_separators(f, s, p + 1)
    }
}

/// The first position at or after `p` that holds a separator, or the end.
pub open spec fn token_end<F: CharFilter>(f: F, s: Seq<char>, p: int) -> int
    decreases s.len() - p,
{
    if p >= s.len() {
        s.len() as int
    } else if f.separates(s[p]) {
        p
    } else {
        token_end(f, s, p + 1)
    }
}

/// Hands out the maximal runs of characters that are no separators, each
/// with the character position where it starts and its ordinal.
pub struct CharTokenIter<'a, F: CharFilter> {
    input: &'a str,
    chars: Vec<char>,
    filter: F,
    pos: usize,
    index: usize,
}

impl<'a, F: CharFilter> CharTokenIter<'a, F> {
    pub closed spec fn text(&self) -> Seq<char> {
        self.input@
    }

    pub closed spec fn position(&self) -> int {
        self.pos as int
    }

    pub closed spec fn count(&self) -> int {
        self.index as int
    }

    pub closed spec fn rule(&self) -> F {
        self.filter
    }

    pub closed spec fn wf(&self) -> bool {
        self.chars@ == self.input@ && self.index <= self.pos <= self.chars@.len()
    }

    /// Starts at the beginning of `input`.
    pub fn new(input: &'a str, filter: F) -> (r: Self)
        ensures
            r.wf(),
            r.text() == input@,
            r.position() == 0,
            r.count() == 0,
            r.rule() == filter,
    {
        let n = input.unicode_len();
        let mut chars: Vec<char> = Vec::new();
        let mut i: usize = 0;
        while i < n
            invariant
                n == input@.len(),
                i <= n,
                chars@ == input@.subrange(0, i as int),
            decreases n - i,
        {
            chars.push(input.get_char(i));
            i = i + 1;
            assert(chars@ =~= input@.subrange(0, i as int));
        }
        assert(chars@ =~= input@);
        CharTokenIter { input, chars, filter, pos: 0, index: 0 }
    }

    /// The next token: the run of non-separators that starts at the first
    /// non-separator from the current position; none when only separators
    /// are left.
    pub fn next(&mut self) -> (r: Option<Token>)
        requires
            old(self).wf(),
        ensures
            final(self).wf(),
            final(self).text() == old(self).text(),
            final(self).rule() == old(self).rule(),
            ({
                let s = old(self).text();
                let start = skip_separators(old(self).rule(), s, old(self).position());
                let end = token_end(old(self).rule(), s, start);
                if start >= s.len() {
                    r is None && final(self).position() == s.len()
                } else {
                    &&& r is Some
                    &&& r->0.term@ == s.subrange(start, end)
                    &&& r->0.offset == start
                    &&& r->0.index == old(self).count()
                    &&& final(self).position() == end
                    &&& final(self).count() == old(self).count() + 1
                }
            }),
    {
        let n = self.chars.len();
        let ghost s = self.input@;
        let ghost f = self.filter;
        let ghost p0 = self.pos as int;
        let mut start = self.pos;
        while start < n && self.filter.is_separator(self.chars[start])
            invariant
                self.wf(),
                n == s.len(),
                s == self.input@,
                f == self.filter,
                p0 <= start <= n,
                skip_separators(f, s, p0) == skip_separators(f, s, start as int),
            decreases n - start,
        {
            start = start + 1;
        }
        if start >= n {
            self.pos = n;
            return None;
        }
        let mut end = start;
        while end < n && !self.filter.is_separator(self.chars[end])
            invariant
                self.wf(),
                n == s.len(),
                s == self.input@,
                f == self.filter,
                start <= end <= n,
                token_end(f, s, start as int) == token_end(f, s, end as int),
            decreases n - end,
        {
            end = end + 1;
        }
        let term = String::from_str(self.input.substring_char(start, end));
        let t = Token { term, offset: start, index: self.index };
        self.index = self.index + 1;
        self.pos = end;
        Some(t)
    }
}

/// A tokenizer which splits at white space.
pub struct WhitespaceTokenizer;

impl<'a> Tokenizer<'a> for WhitespaceTokenizer {
    type TokenIter = CharTokenIter<'a, Whitespace>;

    fn tokenize(&self, input: &'a str) -> CharTokenIter<'a, Whitespace> {
        CharTokenIter::new(input, Whitespace)
    }
}

/// regex's compiled expression, carried through opaque.
#[verifier::external_type_specification]
#[verifier::external_body]
pub struct ExRegex(Regex);

/// regex's compile error, carried through opaque.
#[verifier::external_type_specification]
#[verifier::external_body]
pub struct ExRegexError(regex::Error);

/// Relies on `regex::Regex::new`: compiles the pattern, or says why it cannot.
#[verifier::external_body]
fn compile(pattern: &str) -> (r: Result<Regex, regex::Error>) {
    Regex::new(pattern)
}

/// Relies on `regex::Regex::find_at`: the leftmost-first match that starts at
/// or after byte `from`, as its byte range and its text, which is the
/// input's bytes over that range.
#[verifier::external_body]
fn find_from(re: &Regex, hay: &str, from: usize) -> (r: Option<(usize, usize, String)>)
    requires
        from <= hay.len(),
    ensures
        r is Some ==> {
            let m = r->0;
            &&& from <= m.0 <= m.1 <= hay.len()
            &&& encode_utf8(m.2@) == hay.spec_bytes().subrange(m.0 as int, m.1 as int)
        },
{
    re.find_at(hay, from).map(|m| (m.start(), m.end(), m.as_str().to_string()))
}

/// Hands out the non-empty matches of a regular expression, left to right,
/// each with the byte offset where it starts and its ordinal.
pub struct RegexTokenIter<'a> {
    input: &'a str,
    regex: Option<Regex>,
    offset: usize,
    index: usize,
}

impl<'a> RegexTokenIter<'a> {
    pub closed spec fn wf(&self) -> bool {
        self.index <= self.offset <= self.input.len()
    }

    pub closed spec fn position(&self) -> int {
        self.offset as int
    }

    pub closed spec fn count(&self) -> int {
        self.index as int
    }

    pub closed spec fn text(&self) -> Seq<u8> {
        self.input.spec_bytes()
    }

    /// The length of the input, in bytes.
    pub closed spec fn end(&self) -> int {
        self.input.len() as int
    }

    /// Starts at the beginning of `input`; a pattern that does not compile
    /// yields no token.
    pub fn new(input: &'a str, pattern: &str) -> (r: RegexTokenIter<'a>)
        ensures
            r.wf(),
            r.position() == 0,
            r.count() == 0,
            r.text() == input.spec_bytes(),
            r.end() == input.len(),
    {
        let regex = match compile(pattern) {
            Ok(re) => Some(re),
            Err(_) => None,
        };
        RegexTokenIter { input, regex, offset: 0, index: 0 }
    }

    pub closed spec fn compiled(&self) -> bool {
        self.regex is Some
    }

    /// Whether the pattern compiled.
    pub fn is_valid(&self) -> (r: bool)
        ensures
            r == self.compiled(),
    {
        self.regex.is_some()
    }

    /// The next match at or after the current position. An empty match, or
    /// none, ends the sequence.
    pub fn next(&mut self) -> (r: Option<Token>)
        requires
            old(self).wf(),
        ensures
            final(self).wf(),
            final(self).text() == old(self).text(),
            final(self).end() == old(self).end(),
            r is Some ==> {
                let t = r->0;
                &&& old(self).position() <= t.offset < final(self).position()
                &&& encode_utf8(t.term@) == old(self).text().subrange(t.offset as int, final(self).position())
                &&& t.index == old(self).count()
                &&& final(self).count() == old(self).count() + 1
            },
            r is None ==> final(self).position() == old(self).end(),
    {
        let len = self.input.len();
        let found = match &self.regex {
            Some(re) => find_from(re, self.input, self.offset),
            None => None,
        };
        match found {
            Some((start, end, term)) => {
                assert(old(self).offset <= start <= end <= len);
                if end == start {
                    self.offset = len;
                    return None;
                }
                let t = Token { term, offset: start, index: self.index };
                self.index = self.index + 1;
                self.offset = end;
                Some(t)
            },
            None => {
                self.offset = len;
                None
            },
        }
    }
}

/// A tokenizer which splits text into runs of word characters and runs of
/// other non-space characters.
pub struct RegexWordPunctTokenizer;

impl<'a> Tokenizer<'a> for RegexWordPunctTokenizer {
    type TokenIter = RegexTokenIter<'a>;

    fn tokenize(&self, input: &'a str) -> RegexTokenIter<'a> {
        RegexTokenIter::new(input, "\\w+|[^\\w\\s]+")
    }
}

} // verus!
