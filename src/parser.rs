//! The character cursor and the tokenizer built on it.
use vstd::prelude::*;
use vstd::string::StrSliceExecFns;
use crate::chars::{
    all_whitespace, all_whitespace_in, alnum_string_of, chars_of, class_holds, class_test,
    contains_char, keep_alnum, string_of, CharClass,
};
use crate::dom::{attr_insert, keys_unique, lemma_insert_keeps_unique, view_nodes, AttrMap, AttrsModel, Node, SNode};
use crate::repair::{lemma_repair_keeps_keys_unique, lemma_repair_keeps_well_nested, repair, repair_tokens, well_nested};
use crate::tree::{build_forest, lemma_forest_keys_unique, nodes_keys_unique};
use crate::token::{view_tokens, HTMLToken, SToken, TagMeta};

verus! {

/// Why a parse was abandoned.
#[derive(Debug, Clone, Copy, PartialEq, Eq, Structural)]
pub enum ParseError {
    /// The text ended inside a construct that needs a terminator.
    MalformedMarkup,
}

/// Why an inclusive scan failed.
#[derive(Debug, Clone, Copy, PartialEq, Eq, Structural)]
pub enum ScanError {
    /// The text ended before the terminating character.
    UnterminatedScan,
}

/// The end of the run of characters of class `cls` that starts at `p`.
pub open spec fn run_end(s: Seq<char>, p: int, cls: CharClass) -> int
    decreases s.len() - p,
{
    if 0 <= p < s.len() && class_holds(cls, s[p]) {
        run_end(s, p + 1, cls)
    } else {
        p
    }
}

pub proof fn lemma_run_end(s: Seq<char>, p: int, cls: CharClass)
    requires
        0 <= p <= s.len(),
    ensures
        p <= run_end(s, p, cls) <= s.len(),
        forall|t: int| p <= t < run_end(s, p, cls) ==> class_holds(cls, #[trigger] s[t]),
        run_end(s, p, cls) < s.len() ==> !class_holds(cls, s[run_end(s, p, cls)]),
    decreases s.len() - p,
{
    if p < s.len() && class_holds(cls, s[p]) {
        lemma_run_end(s, p + 1, cls);
    }
}

/// The attributes of an open tag, read from `pos` until the closing `>`;
/// gives the attributes and the position after the `>`.
pub open spec fn attr_loop(s: Seq<char>, pos: int, acc: AttrsModel) -> Result<
    (AttrsModel, int),
    ParseError,
>
    decreases s.len() - pos,
{
    if pos < 0 || pos >= s.len() {
        Err(ParseError::MalformedMarkup)
    } else if s[pos] == '>' {
        Ok((acc, pos + 1))
    } else {
        let w = run_end(s, pos, CharClass::Whitespace);
        let ne = run_end(s, w, CharClass::Alnum);
        let se = run_end(s, ne, CharClass::NotAlnum);
        let name = s.subrange(w, ne);
        let value_end = if s.subrange(ne, se).contains('"') {
            run_end(s, se, CharClass::NotQuote)
        } else {
            run_end(s, se, CharClass::Alnum)
        };
        let quoted = s.subrange(ne, se).contains('"');
        if quoted && value_end >= s.len() {
            Err(ParseError::MalformedMarkup)
        } else {
            let value = s.subrange(se, value_end);
            let after = if quoted {
                value_end + 1
            } else {
                value_end
            };
            let k = run_end(s, after, CharClass::NotAlnumNotGt);
            if pos < k <= s.len() {
                attr_loop(s, k, attr_insert(acc, name, value))
            } else {
                Err(ParseError::MalformedMarkup)
            }
        }
    }
}

pub proof fn lemma_attr_loop_progress(s: Seq<char>, pos: int, acc: AttrsModel)
    ensures
        attr_loop(s, pos, acc) is Ok ==> attr_loop(s, pos, acc)->Ok_0.1 > pos,
    decreases s.len() - pos,
{
    if 0 <= pos < s.len() && s[pos] != '>' {
        let w = run_end(s, pos, CharClass::Whitespace);
        let ne = run_end(s, w, CharClass::Alnum);
        let se = run_end(s, ne, CharClass::NotAlnum);
        let quoted = s.subrange(ne, se).contains('"');
        let value_end = if quoted {
            run_end(s, se, CharClass::NotQuote)
        } else {
            run_end(s, se, CharClass::Alnum)
        };
        let after = if quoted {
            value_end + 1
        } else {
            value_end
        };
        let k = run_end(s, after, CharClass::NotAlnumNotGt);
        if pos < k <= s.len() {
            lemma_attr_loop_progress(s, k, attr_insert(acc, s.subrange(w, ne), s.subrange(se, value_end)));
        }
    }
}

/// One tag read at `p`, where `s[p]` is `<`: the token, if any, and the next position.
pub open spec fn tag_step(s: Seq<char>, p: int) -> Result<(Option<SToken>, int), ParseError> {
    let q = run_end(s, p, CharClass::NotGt);
    if q >= s.len() {
        Ok((None, s.len() as int))
    } else if q - p >= 2 && s[p + 1] == '/' {
        Ok((Some(SToken::Close(keep_alnum(s.subrange(p, q + 1)))), q + 1))
    } else if q - p >= 2 && s[p + 1] == '!' {
        if q - p >= 4 && s[p + 2] == '-' && s[p + 3] == '-' {
            Ok((None, q + 1))
        } else {
            let a = run_end(s, p, CharClass::NotAlnum);
            let b = run_end(s, a, CharClass::NotGt);
            let attrs = attr_insert(Seq::empty(), "text"@, s.subrange(a, b));
            Ok(
                (
                    Some(SToken::SelfClose("directive"@, attrs)),
                    if b < s.len() {
                        b + 1
                    } else {
                        b
                    },
                ),
            )
        }
    } else {
        let ne = run_end(s, p + 1, CharClass::Alnum);
        match attr_loop(s, ne, Seq::empty()) {
            Ok((attrs, e)) => Ok((Some(SToken::Open(s.subrange(p + 1, ne), attrs)), e)),
            Err(err) => Err(err),
        }
    }
}

/// Text read at `p`, where `s[p]` is not `<`.
pub open spec fn text_step(s: Seq<char>, p: int) -> (Option<SToken>, int) {
    if s[p] == '>' {
        (None, p + 1)
    } else {
        let e = run_end(s, p, CharClass::NotAngle);
        if all_whitespace(s.subrange(p, e)) {
            (None, e)
        } else {
            (Some(SToken::Text(s.subrange(p, e))), e)
        }
    }
}

/// One step of the tokenizer at `p`.
pub open spec fn token_step(s: Seq<char>, p: int) -> Result<(Option<SToken>, int), ParseError> {
    if p < 0 || p >= s.len() {
        Ok((None, p))
    } else if s[p] == '<' {
        tag_step(s, p)
    } else {
        Ok(text_step(s, p))
    }
}

/// The tokens from `p` on, after those already in `acc`.
pub open spec fn scan_tokens(s: Seq<char>, p: int, acc: Seq<SToken>) -> Result<
    Seq<SToken>,
    ParseError,
>
    decreases s.len() - p,
{
    if p < 0 || p >= s.len() {
        Ok(acc)
    } else {
        match token_step(s, p) {
            Err(e) => Err(e),
            Ok((t, q)) => if p < q <= s.len() {
                scan_tokens(
                    s,
                    q,
                    match t {
                        Some(x) => acc.push(x),
                        None => acc,
                    },
                )
            } else {
                Err(ParseError::MalformedMarkup)
            },
        }
    }
}

/// The tokens of the text `s`.
pub open spec fn tokenize(s: Seq<char>) -> Result<Seq<SToken>, ParseError> {
    scan_tokens(s, 0, Seq::empty())
}

pub open spec fn opt_token_view(t: Option<HTMLToken>) -> Option<SToken> {
    match t {
        Some(x) => Some(x@),
        None => None,
    }
}

/// `r` and the position `pos` reached are the outcome `step`.
pub open spec fn step_matches(
    r: Result<Option<HTMLToken>, ParseError>,
    pos: int,
    step: Result<(Option<SToken>, int), ParseError>,
) -> bool {
    match step {
        Err(e) => r == Err::<Option<HTMLToken>, ParseError>(e),
        Ok((t, q)) => pos == q && r is Ok && opt_token_view(r->Ok_0) == t,
    }
}

/// A reader over a text held as characters.
pub struct HTMLParser {
    html: String,
    chars: Vec<char>,
    pos: usize,
}

impl HTMLParser {
    /// The characters of the text.
    pub closed spec fn input(&self) -> Seq<char> {
        self.chars@
    }

    /// The index of the next character to read.
    pub closed spec fn position(&self) -> int {
        self.pos as int
    }

    pub closed spec fn wf(&self) -> bool {
        &&& self.chars@ == self.html@
        &&& self.pos <= self.chars.len()
    }

    /// A reader at the start of `html`.
    pub fn new(html: String) -> (r: HTMLParser)
        ensures
            r.wf(),
            r.input() == html@,
            r.position() == 0,
    {
        let chars = chars_of(html.as_str());
        HTMLParser { html, chars, pos: 0 }
    }

    /// The next character, if any.
    pub fn peek(&self) -> (r: Option<char>)
        requires
            self.wf(),
        ensures
            r == if self.position() < self.input().len() {
                Some(self.input()[self.position()])
            } else {
                None::<char>
            },
    {
        if self.pos < self.chars.len() {
            Some(self.chars[self.pos])
        } else {
            None
        }
    }

    /// Whether the next character is `c`.
    pub fn starts_with(&self, c: char) -> (r: bool)
        requires
            self.wf(),
        ensures
            r == (self.position() < self.input().len() && self.input()[self.position()] == c),
    {
        match self.peek() {
            Some(d) => d == c,
            None => false,
        }
    }

    /// The character `n` places after the next one, if any.
    pub fn peek_at_n(&self, n: usize) -> (r: Option<char>)
        requires
            self.wf(),
        ensures
            r == if self.position() + n < self.input().len() {
                Some(self.input()[self.position() + n])
            } else {
                None::<char>
            },
    {
        if n < self.chars.len() - self.pos {
            Some(self.chars[self.pos + n])
        } else {
            None
        }
    }

    /// The next `n` characters, if that many remain.
    pub fn peek_to_n(&self, n: usize) -> (r: Option<String>)
        requires
            self.wf(),
        ensures
            match r {
                Some(t) => self.position() + n <= self.input().len() && t@
                    == self.input().subrange(self.position(), self.position() + n),
                None => self.position() + n > self.input().len(),
            },
    {
        if n <= self.chars.len() - self.pos {
            Some(string_of(&self.chars, self.pos, self.pos + n))
        } else {
            None
        }
    }

    /// Reads the next character, if any.
    pub fn next(&mut self) -> (r: Option<char>)
        requires
            old(self).wf(),
        ensures
            final(self).wf(),
            final(self).input() == old(self).input(),
            r == old(self).peek_spec(),
            final(self).position() == if r is Some {
                old(self).position() + 1
            } else {
                old(self).position()
            },
    {
        if self.pos < self.chars.len() {
            let c = self.chars[self.pos];
            self.pos = self.pos + 1;
            Some(c)
        } else {
            None
        }
    }

    pub open spec fn peek_spec(&self) -> Option<char> {
        if self.position() < self.input().len() {
            Some(self.input()[self.position()])
        } else {
            None
        }
    }

    /// Reads the next `n` characters, if that many remain; else reads nothing.
    pub fn next_n(&mut self, n: usize) -> (r: Option<String>)
        requires
            old(self).wf(),
        ensures
            final(self).wf(),
            final(self).input() == old(self).input(),
            match r {
                Some(t) => old(self).position() + n <= old(self).input().len() && t@
                    == old(self).input().subrange(old(self).position(), old(self).position() + n)
                    && final(self).position() == old(self).position() + n,
                None => old(self).position() + n > old(self).input().len() && final(self).position()
                    == old(self).position(),
            },
    {
        let r = self.peek_to_n(n);
        if r.is_some() {
            self.pos = self.pos + n;
        }
        r
    }

    /// Moves past the run of characters of class `cls`.
    pub fn skip_while(&mut self, cls: CharClass)
        requires
            old(self).wf(),
        ensures
            final(self).wf(),
            final(self).input() == old(self).input(),
            final(self).position() == run_end(old(self).input(), old(self).position(), cls),
            old(self).position() <= final(self).position() <= old(self).input().len(),
            forall|t: int|
                old(self).position() <= t < final(self).position() ==> class_holds(
                    cls,
                    #[trigger] old(self).input()[t],
                ),
            final(self).position() < old(self).input().len() ==> !class_holds(
                cls,
                old(self).input()[final(self).position()],
            ),
    {
        let ghost s = self.chars@;
        let ghost start_at = self.pos as int;
        proof {
            lemma_run_end(s, start_at, cls);
        }
        while self.pos < self.chars.len() && class_test(cls, self.chars[self.pos])
            invariant
                self.wf(),
                self.chars@ == s,
                start_at <= self.pos <= run_end(s, start_at, cls),
                run_end(s, self.pos as int, cls) == run_end(s, start_at, cls),
            decreases self.chars.len() - self.pos,
        {
            proof {
                lemma_run_end(s, self.pos + 1, cls);
            }
            self.pos = self.pos + 1;
        }
    }

    /// Reads the run of characters of class `cls`.
    pub fn next_while(&mut self, cls: CharClass) -> (r: String)
        requires
            old(self).wf(),
        ensures
            final(self).wf(),
            final(self).input() == old(self).input(),
            final(self).position() == run_end(old(self).input(), old(self).position(), cls),
            old(self).position() <= final(self).position() <= old(self).input().len(),
            r@ == old(self).input().subrange(old(self).position(), final(self).position()),
            forall|t: int|
                old(self).position() <= t < final(self).position() ==> class_holds(
                    cls,
                    #[trigger] old(self).input()[t],
                ),
            final(self).position() < old(self).input().len() ==> !class_holds(
                cls,
                old(self).input()[final(self).position()],
            ),
    {
        let start = self.pos;
        self.skip_while(cls);
        string_of(&self.chars, start, self.pos)
    }

    /// The run of characters of class `cls` ahead, without reading it; none when
    /// the text ends before a character outside the class.
    pub fn peek_while(&self, cls: CharClass) -> (r: Option<String>)
        requires
            self.wf(),
        ensures
            ({
                let s = self.input();
                let e = run_end(s, self.position(), cls);
                match r {
                    Some(t) => e < s.len() && t@ == s.subrange(self.position(), e),
                    None => e >= s.len(),
                }
            }),
    {
        let ghost s = self.chars@;
        proof {
            lemma_run_end(s, self.pos as int, cls);
        }
        let mut e = self.pos;
        while e < self.chars.len() && class_test(cls, self.chars[e])
            invariant
                self.wf(),
                self.pos <= e <= run_end(s, self.pos as int, cls),
                s == self.chars@,
                run_end(s, e as int, cls) == run_end(s, self.pos as int, cls),
            decreases self.chars.len() - e,
        {
            proof {
                lemma_run_end(s, e + 1, cls);
            }
            e = e + 1;
        }
        if e < self.chars.len() {
            Some(string_of(&self.chars, self.pos, e))
        } else {
            None
        }
    }

    /// Reads the run of characters of class `cls` and the one character that
    /// ends it; fails, having read to the end, when the text ends first.
    pub fn next_while_inc(&mut self, cls: CharClass) -> (r: Result<String, ScanError>)
        requires
            old(self).wf(),
        ensures
            final(self).wf(),
            final(self).input() == old(self).input(),
            ({
                let s = old(self).input();
                let e = run_end(s, old(self).position(), cls);
                match r {
                    Ok(t) => e < s.len() && final(self).position() == e + 1 && t@ == s.subrange(
                        old(self).position(),
                        e + 1,
                    ),
                    Err(err) => e >= s.len() && err == ScanError::UnterminatedScan
                        && final(self).position() == s.len(),
                }
            }),
    {
        let start = self.pos;
        self.skip_while(cls);
        if self.pos < self.chars.len() {
            self.pos = self.pos + 1;
            Ok(string_of(&self.chars, start, self.pos))
        } else {
            Err(ScanError::UnterminatedScan)
        }
    }
}

impl HTMLParser {
    /// Reads a run of characters other than `<` and `>` as text; none when the run is empty.
    pub fn next_text(&mut self) -> (r: Option<HTMLToken>)
        requires
            old(self).wf(),
        ensures
            final(self).wf(),
            final(self).input() == old(self).input(),
            ({
                let s = old(self).input();
                let p = old(self).position();
                let e = run_end(s, p, CharClass::NotAngle);
                &&& final(self).position() == e
                &&& p <= e <= s.len()
                &&& opt_token_view(r) == if e == p {
                    None::<SToken>
                } else {
                    Some(SToken::Text(s.subrange(p, e)))
                }
            }),
    {
        let start = self.pos;
        let text = self.next_while(CharClass::NotAngle);
        if self.pos == start {
            None
        } else {
            Some(HTMLToken::Text(text))
        }
    }

    /// Reads the attributes of an open tag up to and including its `>`.
    fn next_attributes(&mut self) -> (r: Result<AttrMap, ParseError>)
        requires
            old(self).wf(),
        ensures
            final(self).wf(),
            final(self).input() == old(self).input(),
            match attr_loop(old(self).input(), old(self).position(), Seq::empty()) {
                Ok((attrs, e)) => r is Ok && r->Ok_0@ == attrs && final(self).position() == e,
                Err(err) => r == Err::<AttrMap, ParseError>(err),
            },
    {
        let ghost s = self.chars@;
        let ghost start_at = self.pos as int;
        let mut attributes = AttrMap::new();
        loop
            invariant
                self.wf(),
                self.chars@ == s,
                old(self).chars@ == s,
                old(self).pos == start_at,
                attr_loop(s, self.pos as int, attributes@) == attr_loop(s, start_at, Seq::empty()),
            decreases self.chars.len() - self.pos,
        {
            if self.pos >= self.chars.len() {
                return Err(ParseError::MalformedMarkup);
            }
            if self.chars[self.pos] == '>' {
                self.pos = self.pos + 1;
                return Ok(attributes);
            }
            let start = self.pos;
            self.skip_while(CharClass::Whitespace);
            let attr_name = self.next_while(CharClass::Alnum);
            let sep_start = self.pos;
            self.skip_while(CharClass::NotAlnum);
            let quoted = contains_char(&self.chars, sep_start, self.pos, '"');
            let value;
            if quoted {
                value = self.next_while(CharClass::NotQuote);
                if self.next().is_none() {
                    return Err(ParseError::MalformedMarkup);
                }
            } else {
                value = self.next_while(CharClass::Alnum);
            }
            attributes.insert(attr_name, value);
            self.skip_while(CharClass::NotAlnumNotGt);
        }
    }

    /// Reads a tag at `<`: a close tag, a comment (no token), a directive or an
    /// open tag. A tag that the text ends inside is dropped with the rest of the text.
    pub fn next_tag(&mut self) -> (r: Result<Option<HTMLToken>, ParseError>)
        requires
            old(self).wf(),
            old(self).position() < old(self).input().len(),
            old(self).input()[old(self).position()] == '<',
        ensures
            final(self).wf(),
            final(self).input() == old(self).input(),
            step_matches(r, final(self).position(), tag_step(old(self).input(), old(self).position())),
            r is Ok ==> final(self).position() > old(self).position(),
    {
        let ghost s = self.chars@;
        let p = self.pos;
        let n = self.chars.len();
        let q = match self.peek_while(CharClass::NotGt) {
            None => {
                self.pos = n;
                return Ok(None);
            },
            Some(t) => {
                proof {
                    lemma_run_end(s, p as int, CharClass::NotGt);
                }
                p + t.as_str().unicode_len()
            },
        };
        if q - p >= 2 && self.chars[p + 1] == '/' {
            let name = alnum_string_of(&self.chars, p, q + 1);
            self.pos = q + 1;
            Ok(Some(HTMLToken::CloseTag(name)))
        } else if q - p >= 2 && self.chars[p + 1] == '!' {
            if q - p >= 4 && self.chars[p + 2] == '-' && self.chars[p + 3] == '-' {
                match self.next_while_inc(CharClass::NotGt) {
                    Ok(_) => Ok(None),
                    Err(_) => Err(ParseError::MalformedMarkup),
                }
            } else {
                self.skip_while(CharClass::NotAlnum);
                let text = self.next_while(CharClass::NotGt);
                self.next();
                let mut attributes = AttrMap::new();
                attributes.insert("text".to_owned(), text);
                Ok(Some(HTMLToken::SelfClose(TagMeta { name: "directive".to_owned(), attributes })))
            }
        } else {
            self.next();
            let name = self.next_while(CharClass::Alnum);
            proof {
                lemma_attr_loop_progress(s, self.pos as int, Seq::empty());
            }
            match self.next_attributes() {
                Ok(attributes) => Ok(Some(HTMLToken::OpenTag(TagMeta { name, attributes }))),
                Err(e) => Err(e),
            }
        }
    }

    /// Reads the next token. Text that is all whitespace gives none, as does a
    /// `>` outside any tag, which is skipped.
    pub fn next_token(&mut self) -> (r: Result<Option<HTMLToken>, ParseError>)
        requires
            old(self).wf(),
        ensures
            final(self).wf(),
            final(self).input() == old(self).input(),
            step_matches(r, final(self).position(), token_step(old(self).input(), old(self).position())),
            r is Ok && old(self).position() < old(self).input().len() ==> final(self).position()
                > old(self).position(),
    {
        let p = self.pos;
        match self.peek() {
            None => Ok(None),
            Some(c) => {
                if c == '<' {
                    self.next_tag()
                } else if c == '>' {
                    self.pos = p + 1;
                    Ok(None)
                } else {
                    proof {
                        lemma_run_end(self.chars@, p + 1, CharClass::NotAngle);
                    }
                    match self.next_text() {
                        Some(HTMLToken::Text(text)) => {
                            if all_whitespace_in(&self.chars, p, self.pos) {
                                Ok(None)
                            } else {
                                Ok(Some(HTMLToken::Text(text)))
                            }
                        },
                        _ => Ok(None),
                    }
                }
            },
        }
    }

    /// Reads all the remaining tokens.
    pub fn tokenize(&mut self) -> (r: Result<Vec<HTMLToken>, ParseError>)
        requires
            old(self).wf(),
        ensures
            final(self).wf(),
            final(self).input() == old(self).input(),
            match scan_tokens(old(self).input(), old(self).position(), Seq::empty()) {
                Ok(ts) => r is Ok && view_tokens(r->Ok_0@) == ts,
                Err(e) => r == Err::<Vec<HTMLToken>, ParseError>(e),
            },
    {
        let ghost s = self.chars@;
        let ghost start_at = self.pos as int;
        let mut tokens: Vec<HTMLToken> = Vec::new();
        assert(view_tokens(tokens@) =~= Seq::<SToken>::empty());
        while self.pos < self.chars.len()
            invariant
                self.wf(),
                self.chars@ == s,
                old(self).chars@ == s,
                old(self).pos == start_at,
                scan_tokens(s, self.pos as int, view_tokens(tokens@)) == scan_tokens(
                    s,
                    start_at,
                    Seq::empty(),
                ),
            decreases self.chars.len() - self.pos,
        {
            let ghost before = tokens@;
            match self.next_token() {
                Err(e) => {
                    return Err(e);
                },
                Ok(Some(t)) => {
                    tokens.push(t);
                    assert(view_tokens(tokens@) =~= view_tokens(before).push(t@));
                },
                Ok(None) => {},
            }
        }
        Ok(tokens)
    }
}

/// The forest read from `s` starting at `p`, or the reason the text was rejected.
pub open spec fn parse_html_from(s: Seq<char>, p: int) -> Result<Seq<SNode>, ParseError> {
    match scan_tokens(s, p, Seq::empty()) {
        Ok(toks) => Ok(build_forest(repair(toks))),
        Err(e) => Err(e),
    }
}

/// The forest read from the whole of `s`.
pub open spec fn parse_html(s: Seq<char>) -> Result<Seq<SNode>, ParseError> {
    parse_html_from(s, 0)
}

impl HTMLParser {
    /// Reads the rest of the text into a forest: tokens are read, repaired and
    /// assembled. Fails when the text ends inside a construct that needs a terminator.
    pub fn parse(&mut self) -> (r: Result<Vec<Node>, ParseError>)
        requires
            old(self).wf(),
        ensures
            final(self).wf(),
            match r {
                Ok(ns) => parse_html_from(old(self).input(), old(self).position()) == Ok::<
                    Seq<SNode>,
                    ParseError,
                >(view_nodes(ns@)),
                Err(e) => parse_html_from(old(self).input(), old(self).position()) == Err::<
                    Seq<SNode>,
                    ParseError,
                >(e),
            },
    {
        match self.tokenize() {
            Err(e) => Err(e),
            Ok(tokens) => {
                let valid = repair_tokens(&tokens);
                Ok(self.create_dom_tree(valid))
            },
        }
    }
}

/// When the tokens of `s` are well nested, its forest is the one built from
/// those tokens with no repair at all.
pub proof fn lemma_well_nested_text_unrepaired(s: Seq<char>)
    requires
        tokenize(s) is Ok,
        well_nested(tokenize(s)->Ok_0),
    ensures
        parse_html(s) == Ok::<Seq<SNode>, ParseError>(build_forest(tokenize(s)->Ok_0)),
{
    lemma_repair_keeps_well_nested(tokenize(s)->Ok_0);
}

/// The attribute names of a tag token are unique.
pub open spec fn token_keys_unique(t: SToken) -> bool {
    match t {
        SToken::Open(_, a) => keys_unique(a),
        SToken::SelfClose(_, a) => keys_unique(a),
        _ => true,
    }
}

proof fn lemma_attr_loop_unique(s: Seq<char>, pos: int, acc: AttrsModel)
    requires
        keys_unique(acc),
    ensures
        attr_loop(s, pos, acc) is Ok ==> keys_unique(attr_loop(s, pos, acc)->Ok_0.0),
    decreases s.len() - pos,
{
    if 0 <= pos < s.len() && s[pos] != '>' {
        let w = run_end(s, pos, CharClass::Whitespace);
        let ne = run_end(s, w, CharClass::Alnum);
        let se = run_end(s, ne, CharClass::NotAlnum);
        let quoted = s.subrange(ne, se).contains('"');
        let value_end = if quoted {
            run_end(s, se, CharClass::NotQuote)
        } else {
            run_end(s, se, CharClass::Alnum)
        };
        let after = if quoted {
            value_end + 1
        } else {
            value_end
        };
        let k = run_end(s, after, CharClass::NotAlnumNotGt);
        lemma_insert_keeps_unique(acc, s.subrange(w, ne), s.subrange(se, value_end));
        if pos < k <= s.len() {
            lemma_attr_loop_unique(s, k, attr_insert(acc, s.subrange(w, ne), s.subrange(se, value_end)));
        }
    }
}

proof fn lemma_scan_tokens_unique(s: Seq<char>, p: int, acc: Seq<SToken>)
    requires
        forall|i: int| 0 <= i < acc.len() ==> token_keys_unique(#[trigger] acc[i]),
    ensures
        scan_tokens(s, p, acc) is Ok ==> forall|i: int|
            0 <= i < scan_tokens(s, p, acc)->Ok_0.len() ==> token_keys_unique(
                #[trigger] scan_tokens(s, p, acc)->Ok_0[i],
            ),
    decreases s.len() - p,
{
    if 0 <= p < s.len() {
        if s[p] == '<' {
            let q = run_end(s, p, CharClass::NotGt);
            let a = run_end(s, p, CharClass::NotAlnum);
            let b = run_end(s, a, CharClass::NotGt);
            lemma_insert_keeps_unique(Seq::empty(), "text"@, s.subrange(a, b));
            lemma_attr_loop_unique(s, run_end(s, p + 1, CharClass::Alnum), Seq::empty());
        }
        match token_step(s, p) {
            Ok((t, q)) => if p < q <= s.len() {
                let next = match t {
                    Some(x) => acc.push(x),
                    None => acc,
                };
                assert forall|i: int| 0 <= i < next.len() implies token_keys_unique(#[trigger] next[i]) by {
                    if i < acc.len() {
                        assert(next[i] == acc[i]);
                    }
                }
                lemma_scan_tokens_unique(s, q, next);
            },
            Err(_) => {},
        }
    }
}

/// Every tag token read from a text names each attribute once.
pub proof fn lemma_token_keys_unique(s: Seq<char>)
    ensures
        tokenize(s) is Ok ==> forall|i: int|
            0 <= i < tokenize(s)->Ok_0.len() ==> token_keys_unique(#[trigger] tokenize(s)->Ok_0[i]),
{
    lemma_scan_tokens_unique(s, 0, Seq::empty());
}

/// Every element of a forest read from a text names each attribute once.
pub proof fn lemma_forest_names_attributes_once(s: Seq<char>)
    ensures
        parse_html(s) is Ok ==> nodes_keys_unique(parse_html(s)->Ok_0),
{
    lemma_token_keys_unique(s);
    if tokenize(s) is Ok {
        let toks = tokenize(s)->Ok_0;
        lemma_repair_keeps_keys_unique(toks);
        lemma_forest_keys_unique(repair(toks));
    }
}

/// Reading the same text twice gives the same forest, or the same error.
pub proof fn lemma_parse_deterministic(s: Seq<char>, t: Seq<char>)
    requires
        s == t,
    ensures
        parse_html(s) == parse_html(t),
{
}

} // verus!
