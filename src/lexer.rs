//! The tokenizer of the EBNF source text.

use vstd::prelude::*;

verus! {

/// A token of EBNF source.
#[derive(Debug, PartialEq, Eq)]
pub enum Token {
    Identifier(String),
    Space(usize),
    Equals,
    String(String),
    GroupBegin,
    GroupEnd,
    RepeatBegin,
    RepeatEnd,
    OptionBegin,
    OptionEnd,
    Or,
    Exclude,
    Separator,
    TokenEnd,
    LineEnd,
}

/// A token as a value.
pub enum Lexeme {
    Identifier(Seq<char>),
    Space(nat),
    Equals,
    String(Seq<char>),
    GroupBegin,
    GroupEnd,
    RepeatBegin,
    RepeatEnd,
    OptionBegin,
    OptionEnd,
    Or,
    Exclude,
    Separator,
    TokenEnd,
    LineEnd,
}

impl View for Token {
    type V = Lexeme;

    open spec fn view(&self) -> Lexeme {
        match self {
            Token::Identifier(s) => Lexeme::Identifier(s@),
            Token::Space(n) => Lexeme::Space(*n as nat),
            Token::Equals => Lexeme::Equals,
            Token::String(s) => Lexeme::String(s@),
            Token::GroupBegin => Lexeme::GroupBegin,
            Token::GroupEnd => Lexeme::GroupEnd,
            Token::RepeatBegin => Lexeme::RepeatBegin,
            Token::RepeatEnd => Lexeme::RepeatEnd,
            Token::OptionBegin => Lexeme::OptionBegin,
            Token::OptionEnd => Lexeme::OptionEnd,
            Token::Or => Lexeme::Or,
            Token::Exclude => Lexeme::Exclude,
            Token::Separator => Lexeme::Separator,
            Token::TokenEnd => Lexeme::TokenEnd,
            Token::LineEnd => Lexeme::LineEnd,
        }
    }
}

/// A token with the position of its first character.
#[derive(Debug, PartialEq, Eq)]
pub struct PositionedToken(pub Token, pub usize);

impl View for PositionedToken {
    type V = (Lexeme, int);

    open spec fn view(&self) -> (Lexeme, int) {
        (self.0@, self.1 as int)
    }
}

/// The tokens of a vector, as values.
pub open spec fn tokens_view(v: Seq<PositionedToken>) -> Seq<(Lexeme, int)> {
    Seq::new(v.len(), |i: int| v[i]@)
}

/// Relies on String::push: the character is appended at the end.
#[verifier::external_body]
fn push_char(s: &mut String, c: char)
    ensures
        final(s)@ == old(s)@.push(c),
{
    s.push(c)
}

pub open spec fn is_quote(c: char) -> bool {
    c == '\'' || c == '"'
}

pub open spec fn is_ident_char(c: char) -> bool {
    ('0' <= c && c <= '9') || ('a' <= c && c <= 'z') || ('A' <= c && c <= 'Z') || c == ' '
}

pub open spec fn is_line_end(c: char) -> bool {
    c == '\n' || c == '\r'
}

/// The first index at or after `from` that holds `q`.
pub open spec fn find_char(s: Seq<char>, q: char, from: int) -> Option<int>
    decreases s.len() - from,
{
    if from < 0 || from >= s.len() {
        None
    } else if s[from] == q {
        Some(from)
    } else {
        find_char(s, q, from + 1)
    }
}

/// Where the run of identifier characters that starts at `i` ends.
pub open spec fn ident_end(s: Seq<char>, i: int) -> int
    decreases s.len() - i,
{
    if 0 <= i < s.len() && is_ident_char(s[i]) {
        ident_end(s, i + 1)
    } else {
        i
    }
}

/// Where the run of spaces that starts at `i` ends.
pub open spec fn space_end(s: Seq<char>, i: int) -> int
    decreases s.len() - i,
{
    if 0 <= i < s.len() && s[i] == ' ' {
        space_end(s, i + 1)
    } else {
        i
    }
}

/// Where the run of line breaks that starts at `i` ends.
pub open spec fn line_end_end(s: Seq<char>, i: int) -> int
    decreases s.len() - i,
{
    if 0 <= i < s.len() && is_line_end(s[i]) {
        line_end_end(s, i + 1)
    } else {
        i
    }
}

/// `t` without its leading spaces.
pub open spec fn trim_start(t: Seq<char>) -> Seq<char>
    decreases t.len(),
{
    if t.len() > 0 && t[0] == ' ' {
        trim_start(t.drop_first())
    } else {
        t
    }
}

/// `t` without its trailing spaces.
pub open spec fn trim_end(t: Seq<char>) -> Seq<char>
    decreases t.len(),
{
    if t.len() > 0 && t.last() == ' ' {
        trim_end(t.drop_last())
    } else {
        t
    }
}

/// A string literal at `pos`, quoted with `'` or `"` and closed by the same
/// quote: its contents and the position after it. An opening quote that is
/// never closed yields no token and consumes the rest of the input.
pub open spec fn string_read(s: Seq<char>, pos: int) -> (Option<Lexeme>, int) {
    if 0 <= pos < s.len() && is_quote(s[pos]) {
        match find_char(s, s[pos], pos + 1) {
            Some(e) => (Some(Lexeme::String(s.subrange(pos + 1, e))), e + 1),
            None => (None, s.len() as int),
        }
    } else {
        (None, pos)
    }
}

/// An identifier at `pos`: the run of letters, digits and spaces there,
/// without its leading and trailing spaces; nothing if that leaves nothing.
pub open spec fn ident_read(s: Seq<char>, pos: int) -> (Option<Lexeme>, int) {
    let e = ident_end(s, pos);
    let t = trim_end(trim_start(s.subrange(pos, e)));
    if t.len() == 0 {
        (None, pos)
    } else {
        (Some(Lexeme::Identifier(t)), e)
    }
}

/// `=` or `::=` at `pos`.
pub open spec fn equals_read(s: Seq<char>, pos: int) -> (Option<Lexeme>, int) {
    if 0 <= pos < s.len() && s[pos] == '=' {
        (Some(Lexeme::Equals), pos + 1)
    } else if 0 <= pos && pos + 2 < s.len() && s[pos] == ':' && s[pos + 1] == ':' && s[pos + 2] == '=' {
        (Some(Lexeme::Equals), pos + 3)
    } else {
        (None, pos)
    }
}

/// The token of a one-character punctuation mark.
pub open spec fn punctuation(c: char) -> Option<Lexeme> {
    if c == '[' {
        Some(Lexeme::OptionBegin)
    } else if c == ']' {
        Some(Lexeme::OptionEnd)
    } else if c == '(' {
        Some(Lexeme::GroupBegin)
    } else if c == ')' {
        Some(Lexeme::GroupEnd)
    } else if c == '{' {
        Some(Lexeme::RepeatBegin)
    } else if c == '}' {
        Some(Lexeme::RepeatEnd)
    } else if c == ',' {
        Some(Lexeme::Separator)
    } else if c == ';' {
        Some(Lexeme::TokenEnd)
    } else if c == '|' {
        Some(Lexeme::Or)
    } else if c == '-' {
        Some(Lexeme::Exclude)
    } else {
        None
    }
}

/// A punctuation mark at `pos`.
pub open spec fn single_read(s: Seq<char>, pos: int) -> (Option<Lexeme>, int) {
    if 0 <= pos < s.len() && punctuation(s[pos]) is Some {
        (punctuation(s[pos]), pos + 1)
    } else {
        (None, pos)
    }
}

/// A run of spaces at `pos`, with its length.
pub open spec fn space_read(s: Seq<char>, pos: int) -> (Option<Lexeme>, int) {
    let e = space_end(s, pos);
    if e > pos {
        (Some(Lexeme::Space((e - pos) as nat)), e)
    } else {
        (None, pos)
    }
}

/// A run of line breaks at `pos`.
pub open spec fn line_end_read(s: Seq<char>, pos: int) -> (Option<Lexeme>, int) {
    let e = line_end_end(s, pos);
    if e > pos {
        (Some(Lexeme::LineEnd), e)
    } else {
        (None, pos)
    }
}

/// `tok` at `pos` in front of the tokens of the rest, if the rest lexes.
pub open spec fn push_front(tok: (Lexeme, int), rest: Option<Seq<(Lexeme, int)>>) -> Option<Seq<(Lexeme, int)>> {
    match rest {
        Some(ts) => Some(seq![tok] + ts),
        None => None,
    }
}

/// The tokens of `s` from `pos` on: at each position the first reader that
/// applies, in the order string, identifier, equals, punctuation, spaces,
/// line breaks; spaces and line breaks give no token. Nothing when some
/// character is left that no reader takes.
pub open spec fn lex_from(s: Seq<char>, pos: int) -> Option<Seq<(Lexeme, int)>>
    decreases s.len() - pos,
{
    if pos < 0 || pos >= s.len() {
        Some(seq![])
    } else {
        let (t1, p1) = string_read(s, pos);
        let (t2, p2) = ident_read(s, pos);
        let (t3, p3) = equals_read(s, pos);
        let (t4, p4) = single_read(s, pos);
        let (t5, p5) = space_read(s, pos);
        let (t6, p6) = line_end_read(s, pos);
        if pos < p1 <= s.len() {
            match t1 {
                Some(t) => push_front((t, pos), lex_from(s, p1)),
                None => lex_from(s, p1),
            }
        } else if t2 is Some && pos < p2 <= s.len() {
            push_front((t2->Some_0, pos), lex_from(s, p2))
        } else if t3 is Some && pos < p3 <= s.len() {
            push_front((t3->Some_0, pos), lex_from(s, p3))
        } else if t4 is Some && pos < p4 <= s.len() {
            push_front((t4->Some_0, pos), lex_from(s, p4))
        } else if pos < p5 <= s.len() {
            lex_from(s, p5)
        } else if pos < p6 <= s.len() {
            lex_from(s, p6)
        } else {
            None
        }
    }
}

/// The tokens `ts` in front of the tokens of the rest, if the rest lexes.
pub open spec fn prepend_tokens(ts: Seq<(Lexeme, int)>, rest: Option<Seq<(Lexeme, int)>>) -> Option<Seq<(Lexeme, int)>> {
    match rest {
        Some(r) => Some(ts + r),
        None => None,
    }
}

/// What a reader that took `step` at `pos` hands back, with the position after it.
pub open spec fn read_as(r: Option<PositionedToken>, after: int, step: (Option<Lexeme>, int), pos: int) -> bool {
    &&& after == step.1
    &&& match step.0 {
        Some(l) => r matches Some(t) && t@ == (l, pos),
        None => r is None,
    }
}

proof fn lemma_push_token(before: Seq<PositionedToken>, t: PositionedToken)
    ensures
        tokens_view(before.push(t)) == tokens_view(before) + seq![t@],
{
    assert(tokens_view(before.push(t)) =~= tokens_view(before) + seq![t@]);
}

proof fn lemma_find_char(s: Seq<char>, q: char, from: int)
    requires
        0 <= from,
    ensures
        find_char(s, q, from) matches Some(e) ==> from <= e < s.len() && s[e] == q,
    decreases s.len() - from,
{
    if from < s.len() && s[from] != q {
        lemma_find_char(s, q, from + 1);
    }
}

proof fn lemma_runs_bounded(s: Seq<char>, i: int)
    requires
        0 <= i <= s.len(),
    ensures
        i <= ident_end(s, i) <= s.len(),
        i <= space_end(s, i) <= s.len(),
        i <= line_end_end(s, i) <= s.len(),
    decreases s.len() - i,
{
    if i < s.len() {
        lemma_runs_bounded(s, i + 1);
    }
}

proof fn lemma_trim_empty(t: Seq<char>)
    requires
        t.len() == 0,
    ensures
        trim_end(trim_start(t)).len() == 0,
{
}

/// Every reader that gives a token or moves does so within the text and forward.
proof fn lemma_readers_advance(s: Seq<char>, pos: int)
    requires
        0 <= pos <= s.len(),
    ensures
        string_read(s, pos).1 == pos || pos < string_read(s, pos).1 <= s.len(),
        string_read(s, pos).0 is Some ==> pos < string_read(s, pos).1 <= s.len(),
        ident_read(s, pos).0 is Some ==> pos < ident_read(s, pos).1 <= s.len(),
        equals_read(s, pos).0 is Some ==> pos < equals_read(s, pos).1 <= s.len(),
        single_read(s, pos).0 is Some ==> pos < single_read(s, pos).1 <= s.len(),
        space_read(s, pos).0 is Some ==> pos < space_read(s, pos).1 <= s.len(),
        line_end_read(s, pos).0 is Some ==> pos < line_end_read(s, pos).1 <= s.len(),
        string_read(s, pos).0 is None ==> string_read(s, pos).1 == pos || string_read(s, pos).1 == s.len(),
        ident_read(s, pos).0 is None ==> ident_read(s, pos).1 == pos,
        equals_read(s, pos).0 is None ==> equals_read(s, pos).1 == pos,
        single_read(s, pos).0 is None ==> single_read(s, pos).1 == pos,
        space_read(s, pos).0 is None ==> space_read(s, pos).1 == pos,
        line_end_read(s, pos).0 is None ==> line_end_read(s, pos).1 == pos,
{
    lemma_runs_bounded(s, pos);
    if pos < s.len() {
        lemma_find_char(s, s[pos], pos + 1);
    }
    if ident_end(s, pos) == pos {
        lemma_trim_empty(s.subrange(pos, pos));
    }
}

/// The string of the characters `s[from..to]`.
fn string_of(s: &[char], from: usize, to: usize) -> (r: String)
    requires
        from <= to <= s@.len(),
    ensures
        r@ == s@.subrange(from as int, to as int),
{
    let mut r = String::new();
    let mut i: usize = from;
    while i < to
        invariant
            from <= i <= to,
            to <= s@.len(),
            r@ == s@.subrange(from as int, i as int),
        decreases to - i,
    {
        push_char(&mut r, s[i]);
        i += 1;
        assert(r@ =~= s@.subrange(from as int, i as int));
    }
    r
}

fn ident_char(c: char) -> (r: bool)
    ensures
        r == is_ident_char(c),
{
    ('0' <= c && c <= '9') || ('a' <= c && c <= 'z') || ('A' <= c && c <= 'Z') || c == ' '
}

fn punctuation_token(c: char) -> (r: Option<Token>)
    ensures
        match punctuation(c) {
            Some(l) => r matches Some(t) && t@ == l,
            None => r is None,
        },
{
    if c == '[' {
        Some(Token::OptionBegin)
    } else if c == ']' {
        Some(Token::OptionEnd)
    } else if c == '(' {
        Some(Token::GroupBegin)
    } else if c == ')' {
        Some(Token::GroupEnd)
    } else if c == '{' {
        Some(Token::RepeatBegin)
    } else if c == '}' {
        Some(Token::RepeatEnd)
    } else if c == ',' {
        Some(Token::Separator)
    } else if c == ';' {
        Some(Token::TokenEnd)
    } else if c == '|' {
        Some(Token::Or)
    } else if c == '-' {
        Some(Token::Exclude)
    } else {
        None
    }
}

/// Reads tokens from a text of characters.
#[derive(Debug)]
pub struct Tokenizer<'a> {
    input: &'a [char],
    cursor: usize,
}

impl<'a> Tokenizer<'a> {
    /// The text being read.
    pub closed spec fn text(&self) -> Seq<char> {
        self.input@
    }

    /// The position of the next character to read.
    pub closed spec fn position(&self) -> int {
        self.cursor as int
    }

    /// The position lies within the text.
    pub closed spec fn inv(&self) -> bool {
        self.cursor <= self.input@.len()
    }

    /// A tokenizer at the start of `input`.
    pub fn new<'b>(input: &'b [char]) -> (r: Tokenizer<'b>)
        ensures
            r.inv(),
            r.text() == input@,
            r.position() == 0,
    {
        Tokenizer { input, cursor: 0 }
    }

    fn get_pos(&self) -> (r: usize)
        ensures
            r == self.position(),
    {
        self.cursor
    }

    /// Reads the whole text into tokens; nothing if some character is left
    /// that no token takes.
    pub fn read_definition(self) -> (r: Option<Vec<PositionedToken>>)
        requires
            self.inv(),
        ensures
            match lex_from(self.text(), self.position()) {
                Some(ts) => r matches Some(v) && tokens_view(v@) == ts,
                None => r is None,
            },
    {
        let ghost s = self.text();
        let ghost p0 = self.position();
        let mut me = self;
        let mut tokens: Vec<PositionedToken> = Vec::new();
        loop
            invariant
                me.inv(),
                me.text() == s,
                lex_from(s, p0) == prepend_tokens(tokens_view(tokens@), lex_from(s, me.position())),
            ensures
                me.inv(),
                me.text() == s,
                lex_from(s, p0) == prepend_tokens(tokens_view(tokens@), lex_from(s, me.position())),
                me.position() < s.len() ==> lex_from(s, me.position()) is None,
            decreases s.len() - me.position(),
        {
            let pos = me.cursor;
            let ghost before = tokens@;
            proof {
                lemma_readers_advance(s, pos as int);
            }
            let r1 = me.read_string();
            if let Some(t) = r1 {
                let ghost tv = t;
                tokens.push(t);
                proof {
                    lemma_push_token(before, tv);
                }
                continue;
            }
            if me.cursor > pos {
                continue;
            }
            let r2 = me.read_identifier();
            if let Some(t) = r2 {
                let ghost tv = t;
                tokens.push(t);
                proof {
                    lemma_push_token(before, tv);
                }
                continue;
            }
            let r3 = me.read_equals();
            if let Some(t) = r3 {
                let ghost tv = t;
                tokens.push(t);
                proof {
                    lemma_push_token(before, tv);
                }
                continue;
            }
            let r4 = me.read_single_token();
            if let Some(t) = r4 {
                let ghost tv = t;
                tokens.push(t);
                proof {
                    lemma_push_token(before, tv);
                }
                continue;
            }
            let r5 = me.read_space();
            if r5.is_some() {
                continue;
            }
            let r6 = me.read_lineend();
            if r6.is_some() {
                continue;
            }
            break;
        }
        if me.cursor < me.input.len() {
            None
        } else {
            assert(tokens_view(tokens@) + seq![] =~= tokens_view(tokens@));
            Some(tokens)
        }
    }

    /// Reads a string literal, quoted with `'` or `"`. An opening quote that
    /// is never closed gives nothing and moves to the end of the text.
    pub fn read_string(&mut self) -> (r: Option<PositionedToken>)
        requires
            old(self).inv(),
        ensures
            final(self).inv(),
            final(self).text() == old(self).text(),
            read_as(r, final(self).position(), string_read(old(self).text(), old(self).position()), old(self).position()),
    {
        let pos = self.get_pos();
        let len = self.input.len();
        if pos < len && (self.input[pos] == '\'' || self.input[pos] == '"') {
            let q = self.input[pos];
            let mut e: usize = pos + 1;
            while e < len && self.input[e] != q
                invariant
                    pos < e <= len,
                    len == self.input@.len(),
                    q == self.input@[pos as int],
                    find_char(self.input@, q, pos + 1) == find_char(self.input@, q, e as int),
                decreases len - e,
            {
                e += 1;
            }
            if e < len {
                let text = string_of(self.input, pos + 1, e);
                self.cursor = e + 1;
                Some(PositionedToken(Token::String(text), pos))
            } else {
                self.cursor = len;
                None
            }
        } else {
            None
        }
    }

    /// Reads a run of spaces, giving its length.
    pub fn read_space(&mut self) -> (r: Option<PositionedToken>)
        requires
            old(self).inv(),
        ensures
            final(self).inv(),
            final(self).text() == old(self).text(),
            read_as(r, final(self).position(), space_read(old(self).text(), old(self).position()), old(self).position()),
    {
        let pos = self.get_pos();
        let len = self.input.len();
        let mut e: usize = pos;
        while e < len && self.input[e] == ' '
            invariant
                pos <= e <= len,
                len == self.input@.len(),
                space_end(self.input@, pos as int) == space_end(self.input@, e as int),
            decreases len - e,
        {
            e += 1;
        }
        if e > pos {
            self.cursor = e;
            Some(PositionedToken(Token::Space(e - pos), pos))
        } else {
            None
        }
    }

    /// Reads a run of line breaks.
    pub fn read_lineend(&mut self) -> (r: Option<PositionedToken>)
        requires
            old(self).inv(),
        ensures
            final(self).inv(),
            final(self).text() == old(self).text(),
            read_as(r, final(self).position(), line_end_read(old(self).text(), old(self).position()), old(self).position()),
    {
        let pos = self.get_pos();
        let len = self.input.len();
        let mut e: usize = pos;
        while e < len && (self.input[e] == '\n' || self.input[e] == '\r')
            invariant
                pos <= e <= len,
                len == self.input@.len(),
                line_end_end(self.input@, pos as int) == line_end_end(self.input@, e as int),
            decreases len - e,
        {
            e += 1;
        }
        if e > pos {
            self.cursor = e;
            Some(PositionedToken(Token::LineEnd, pos))
        } else {
            None
        }
    }

    /// Reads `=` or `::=`.
    pub fn read_equals(&mut self) -> (r: Option<PositionedToken>)
        requires
            old(self).inv(),
        ensures
            final(self).inv(),
            final(self).text() == old(self).text(),
            read_as(r, final(self).position(), equals_read(old(self).text(), old(self).position()), old(self).position()),
    {
        let pos = self.get_pos();
        let len = self.input.len();
        if pos < len && self.input[pos] == '=' {
            self.cursor = pos + 1;
            Some(PositionedToken(Token::Equals, pos))
        } else if pos < len && len - pos > 2 && self.input[pos] == ':' && self.input[pos + 1] == ':' && self.input[pos + 2] == '=' {
            self.cursor = pos + 3;
            Some(PositionedToken(Token::Equals, pos))
        } else {
            None
        }
    }

    /// Reads an identifier: a run of letters, digits and spaces, without its
    /// leading and trailing spaces.
    pub fn read_identifier(&mut self) -> (r: Option<PositionedToken>)
        requires
            old(self).inv(),
        ensures
            final(self).inv(),
            final(self).text() == old(self).text(),
            read_as(r, final(self).position(), ident_read(old(self).text(), old(self).position()), old(self).position()),
    {
        let pos = self.get_pos();
        let len = self.input.len();
        let ghost s = self.input@;
        let mut e: usize = pos;
        while e < len && ident_char(self.input[e])
            invariant
                pos <= e <= len,
                len == s.len(),
                s == self.input@,
                ident_end(s, pos as int) == ident_end(s, e as int),
            decreases len - e,
        {
            e += 1;
        }
        let mut f: usize = pos;
        while f < e && self.input[f] == ' '
            invariant
                pos <= f <= e,
                e <= len,
                len == s.len(),
                s == self.input@,
                trim_start(s.subrange(pos as int, e as int)) == trim_start(s.subrange(f as int, e as int)),
            decreases e - f,
        {
            assert(s.subrange(f as int, e as int).drop_first() =~= s.subrange(f + 1, e as int));
            f += 1;
        }
        assert(trim_start(s.subrange(pos as int, e as int)) == s.subrange(f as int, e as int));
        let mut l: usize = e;
        while l > f && self.input[l - 1] == ' '
            invariant
                f <= l <= e,
                e <= len,
                len == s.len(),
                s == self.input@,
                trim_end(s.subrange(f as int, e as int)) == trim_end(s.subrange(f as int, l as int)),
            decreases l - f,
        {
            assert(s.subrange(f as int, l as int).drop_last() =~= s.subrange(f as int, l - 1));
            l -= 1;
        }
        assert(trim_end(s.subrange(f as int, e as int)) == s.subrange(f as int, l as int));
        if f == l {
            None
        } else {
            let text = string_of(self.input, f, l);
            self.cursor = e;
            Some(PositionedToken(Token::Identifier(text), pos))
        }
    }

    /// Reads one of the punctuation marks `[ ] ( ) { } , ; | -`.
    pub fn read_single_token(&mut self) -> (r: Option<PositionedToken>)
        requires
            old(self).inv(),
        ensures
            final(self).inv(),
            final(self).text() == old(self).text(),
            read_as(r, final(self).position(), single_read(old(self).text(), old(self).position()), old(self).position()),
    {
        let pos = self.get_pos();
        if pos < self.input.len() {
            match punctuation_token(self.input[pos]) {
                Some(t) => {
                    self.cursor = pos + 1;
                    Some(PositionedToken(t, pos))
                },
                None => None,
            }
        } else {
            None
        }
    }
}

} // verus!
