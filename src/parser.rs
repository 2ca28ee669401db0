//! The rule-expression tree of an EBNF grammar, and the recursive-descent
//! parser that builds it from tokens.

use vstd::prelude::*;
use vstd::string::StrSliceExecFns;
use crate::lexer::{Lexeme, PositionedToken, Token, tokens_view};

verus! {

/// One named definition: `identifier = rule ;`.
#[derive(Debug)]
pub struct Definition {
    pub identifier: String,
    pub rule: Box<Rule>,
}

/// A rule expression.
#[derive(Debug)]
pub enum Rule {
    /// One literal character.
    Character(char),
    /// A reference to the definition of that name.
    IdentifierRef(String),
    /// What `from` matches, less what `target` matches.
    Exclude { from: Box<Rule>, target: Box<Rule> },
    /// The parts one after the other.
    Sequence(Vec<Box<Rule>>),
    /// Any one of the alternatives.
    Or(Vec<Box<Rule>>),
    /// Zero or more times the inner rule.
    Repeat(Box<Rule>),
    /// Zero times or once the inner rule.
    Option(Box<Rule>),
    /// The inner rule, grouped.
    Group(Box<Rule>),
}

/// A rule expression as a value.
pub enum RuleV {
    Character(char),
    IdentifierRef(Seq<char>),
    Exclude(Box<RuleV>, Box<RuleV>),
    Sequence(Seq<RuleV>),
    Or(Seq<RuleV>),
    Repeat(Box<RuleV>),
    Option(Box<RuleV>),
    Group(Box<RuleV>),
}

/// The value of a rule expression.
pub open spec fn rule_view(r: Rule) -> RuleV
    decreases r,
{
    match r {
        Rule::Character(c) => RuleV::Character(c),
        Rule::IdentifierRef(s) => RuleV::IdentifierRef(s@),
        Rule::Exclude { from, target } => RuleV::Exclude(Box::new(rule_view(*from)), Box::new(rule_view(*target))),
        Rule::Sequence(rs) => RuleV::Sequence(
            Seq::new(rs@.len(), |i: int| if 0 <= i < rs@.len() { rule_view(*rs@[i]) } else { RuleV::Character(' ') }),
        ),
        Rule::Or(rs) => RuleV::Or(
            Seq::new(rs@.len(), |i: int| if 0 <= i < rs@.len() { rule_view(*rs@[i]) } else { RuleV::Character(' ') }),
        ),
        Rule::Repeat(x) => RuleV::Repeat(Box::new(rule_view(*x))),
        Rule::Option(x) => RuleV::Option(Box::new(rule_view(*x))),
        Rule::Group(x) => RuleV::Group(Box::new(rule_view(*x))),
    }
}

/// The values of a vector of rules.
pub open spec fn rules_view(rs: Seq<Box<Rule>>) -> Seq<RuleV> {
    Seq::new(rs.len(), |i: int| rule_view(*rs[i]))
}

/// The values of the definitions: each name with the value of its rule.
pub open spec fn definitions_view(ds: Seq<Box<Definition>>) -> Seq<(Seq<char>, RuleV)> {
    Seq::new(ds.len(), |i: int| (ds[i].identifier@, rule_view(*ds[i].rule)))
}

/// What went wrong in parsing.
#[derive(Debug, Clone, Copy, PartialEq, Eq, Structural)]
pub enum ParseErrorKind {
    /// A definition does not have the shape `identifier = rule ;`.
    InvalidDefinition,
    /// No rule expression where one was expected.
    InvalidRule,
}

/// A parse error, at the position of the token where it was found, or at no
/// position when the tokens ran out.
#[derive(Debug, Clone, Copy, PartialEq, Eq, Structural)]
pub struct ParseError {
    pub position: Option<usize>,
    pub kind: ParseErrorKind,
}

/// A parse error as a value.
pub struct ParseFailure {
    pub position: Option<int>,
    pub kind: ParseErrorKind,
}

impl View for ParseError {
    type V = ParseFailure;

    open spec fn view(&self) -> ParseFailure {
        ParseFailure {
            position: match self.position {
                Some(p) => Some(p as int),
                None => None,
            },
            kind: self.kind,
        }
    }
}

/// The error `kind` at token `i`.
pub open spec fn failure_at(ts: Seq<(Lexeme, int)>, i: int, kind: ParseErrorKind) -> ParseFailure {
    ParseFailure { position: if 0 <= i < ts.len() { Some(ts[i].1) } else { None }, kind }
}

/// The rule of a string literal: its characters in sequence.
pub open spec fn string_rule(s: Seq<char>) -> RuleV {
    RuleV::Sequence(character_rules(s))
}

/// The rule of one character.
pub open spec fn character_rule(c: char) -> RuleV {
    RuleV::Character(c)
}

/// One character rule for each character of `s`.
pub open spec fn character_rules(s: Seq<char>) -> Seq<RuleV> {
    Seq::new(s.len(), |i: int| character_rule(s[i]))
}

/// The alternatives of `l | right`: a right side that is itself an
/// alternation is flattened into it.
pub open spec fn join_or(l: RuleV, right: RuleV) -> RuleV {
    match right {
        RuleV::Or(v) => RuleV::Or(seq![l] + v),
        _ => RuleV::Or(seq![l, right]),
    }
}

/// A rule element from token `i`: the end of `p_element_from` with nothing read yet.
pub open spec fn p_element(ts: Seq<(Lexeme, int)>, i: int) -> Result<(RuleV, int), ParseFailure>
    decreases ts.len() - i, 2int,
{
    p_element_from(ts, i, None)
}

/// Reads on from token `i` with `left` read so far: a first operand (a
/// bracketed rule, an identifier or a string), then any `| element` or
/// `- element`. A bracketed rule whose closing bracket is missing is dropped.
pub open spec fn p_element_from(ts: Seq<(Lexeme, int)>, i: int, left: Option<RuleV>) -> Result<
    (RuleV, int),
    ParseFailure,
>
    decreases ts.len() - i, 1int,
{
    if i < 0 || i >= ts.len() {
        match left {
            Some(l) => Ok((l, i)),
            None => Err(failure_at(ts, i, ParseErrorKind::InvalidRule)),
        }
    } else {
        match left {
            Some(l) => match ts[i].0 {
                Lexeme::Or => match p_element(ts, i + 1) {
                    Ok((right, j)) => if i < j <= ts.len() {
                        p_element_from(ts, j, Some(join_or(l, right)))
                    } else {
                        Err(failure_at(ts, i, ParseErrorKind::InvalidRule))
                    },
                    Err(e) => Err(e),
                },
                Lexeme::Exclude => match p_element(ts, i + 1) {
                    Ok((right, j)) => if i < j <= ts.len() {
                        p_element_from(ts, j, Some(RuleV::Exclude(Box::new(l), Box::new(right))))
                    } else {
                        Err(failure_at(ts, i, ParseErrorKind::InvalidRule))
                    },
                    Err(e) => Err(e),
                },
                _ => Ok((l, i)),
            },
            None => match ts[i].0 {
                Lexeme::GroupBegin => p_bracket(ts, i, 0),
                Lexeme::RepeatBegin => p_bracket(ts, i, 1),
                Lexeme::OptionBegin => p_bracket(ts, i, 2),
                Lexeme::Identifier(s) => p_element_from(ts, i + 1, Some(RuleV::IdentifierRef(s))),
                Lexeme::String(s) => p_element_from(ts, i + 1, Some(string_rule(s))),
                _ => Err(failure_at(ts, i, ParseErrorKind::InvalidRule)),
            },
        }
    }
}

/// Whether `l` closes the bracket of `kind`: 0 a group, 1 a repetition, 2 an option.
pub open spec fn closes(l: Lexeme, kind: int) -> bool {
    match l {
        Lexeme::GroupEnd => kind == 0,
        Lexeme::RepeatEnd => kind == 1,
        Lexeme::OptionEnd => kind == 2,
        _ => false,
    }
}

/// The bracketed rule of `kind` wrapped as such.
pub open spec fn bracketed(inner: RuleV, kind: int) -> RuleV {
    if kind == 0 {
        RuleV::Group(Box::new(inner))
    } else if kind == 1 {
        RuleV::Repeat(Box::new(inner))
    } else {
        RuleV::Option(Box::new(inner))
    }
}

/// A bracketed rule opened at token `i`.
pub open spec fn p_bracket(ts: Seq<(Lexeme, int)>, i: int, kind: int) -> Result<(RuleV, int), ParseFailure>
    decreases ts.len() - i, 0int,
{
    if 0 <= i < ts.len() {
        match p_rule(ts, i + 1) {
            Ok((inner, j)) => if j <= i || j > ts.len() {
                Err(failure_at(ts, i, ParseErrorKind::InvalidRule))
            } else if j < ts.len() && closes(ts[j].0, kind) {
                p_element_from(ts, j + 1, Some(bracketed(inner, kind)))
            } else {
                p_element_from(ts, j, None)
            },
            Err(e) => Err(e),
        }
    } else {
        Err(failure_at(ts, i, ParseErrorKind::InvalidRule))
    }
}

/// A rule from token `i`: elements separated by `,`.
pub open spec fn p_rule(ts: Seq<(Lexeme, int)>, i: int) -> Result<(RuleV, int), ParseFailure>
    decreases ts.len() - i, 4int,
{
    p_rule_from(ts, i, seq![])
}

/// Reads on from token `i` with the elements `acc` read so far.
pub open spec fn p_rule_from(ts: Seq<(Lexeme, int)>, i: int, acc: Seq<RuleV>) -> Result<(RuleV, int), ParseFailure>
    decreases ts.len() - i, 3int,
{
    match p_element(ts, i) {
        Ok((r, j)) => {
            let acc2 = acc.push(r);
            if j < i || j >= ts.len() {
                Err(failure_at(ts, j, ParseErrorKind::InvalidRule))
            } else if ts[j].0 is Separator {
                p_rule_from(ts, j + 1, acc2)
            } else if acc2.len() == 1 {
                Ok((acc2[0], j))
            } else {
                Ok((RuleV::Sequence(acc2), j))
            }
        },
        Err(e) => Err(e),
    }
}

/// A definition from token `i`: `identifier = rule ;`.
pub open spec fn p_definition(ts: Seq<(Lexeme, int)>, i: int) -> Result<((Seq<char>, RuleV), int), ParseFailure> {
    if 0 <= i && i + 1 < ts.len() && ts[i].0 is Identifier && ts[i + 1].0 is Equals {
        match p_rule(ts, i + 2) {
            Ok((r, j)) => if 0 <= j < ts.len() && ts[j].0 is TokenEnd {
                Ok(((ts[i].0->Identifier_0, r), j + 1))
            } else {
                Err(failure_at(ts, j, ParseErrorKind::InvalidDefinition))
            },
            Err(e) => Err(e),
        }
    } else {
        Err(failure_at(ts, i, ParseErrorKind::InvalidDefinition))
    }
}

/// The definitions from token `i` to the end.
pub open spec fn p_definitions(ts: Seq<(Lexeme, int)>, i: int) -> Result<Seq<(Seq<char>, RuleV)>, ParseFailure>
    decreases ts.len() - i,
{
    if i < 0 || i >= ts.len() {
        Ok(seq![])
    } else {
        match p_definition(ts, i) {
            Ok((d, j)) => if j > i {
                match p_definitions(ts, j) {
                    Ok(ds) => Ok(seq![d] + ds),
                    Err(e) => Err(e),
                }
            } else {
                Err(failure_at(ts, i, ParseErrorKind::InvalidDefinition))
            },
            Err(e) => Err(e),
        }
    }
}

/// The value of an optional rule.
pub open spec fn option_view(r: Option<Rule>) -> Option<RuleV> {
    match r {
        Some(l) => Some(rule_view(l)),
        None => None,
    }
}

/// The definitions `ds` in front of those of the rest, if the rest parses.
pub open spec fn prepend_definitions(
    ds: Seq<(Seq<char>, RuleV)>,
    rest: Result<Seq<(Seq<char>, RuleV)>, ParseFailure>,
) -> Result<Seq<(Seq<char>, RuleV)>, ParseFailure> {
    match rest {
        Ok(r) => Ok(ds + r),
        Err(e) => Err(e),
    }
}

proof fn lemma_or_view(rs: Vec<Box<Rule>>)
    ensures
        rule_view(Rule::Or(rs)) == RuleV::Or(rules_view(rs@)),
        rule_view(Rule::Sequence(rs)) == RuleV::Sequence(rules_view(rs@)),
{
    assert(rule_view(Rule::Or(rs))->Or_0 =~= rules_view(rs@));
    assert(rule_view(Rule::Sequence(rs))->Sequence_0 =~= rules_view(rs@));
}

fn is_separator(t: &Token) -> (r: bool)
    ensures
        r == (t@ is Separator),
{
    match t {
        Token::Separator => true,
        _ => false,
    }
}

fn is_token_end(t: &Token) -> (r: bool)
    ensures
        r == (t@ is TokenEnd),
{
    match t {
        Token::TokenEnd => true,
        _ => false,
    }
}

fn is_equals(t: &Token) -> (r: bool)
    ensures
        r == (t@ is Equals),
{
    match t {
        Token::Equals => true,
        _ => false,
    }
}

/// Whether `t` closes the bracket of `kind`: 0 a group, 1 a repetition, 2 an option.
fn closes_bracket(t: &Token, kind: u8) -> (r: bool)
    ensures
        r == closes(t@, kind as int),
{
    match t {
        Token::GroupEnd => kind == 0,
        Token::RepeatEnd => kind == 1,
        Token::OptionEnd => kind == 2,
        _ => false,
    }
}

/// `l | right`, with a right side that is itself an alternation flattened into it.
fn join_alternatives(l: Rule, right: Rule) -> (r: Rule)
    ensures
        rule_view(r) == join_or(rule_view(l), rule_view(right)),
{
    let ghost lv = rule_view(l);
    let ghost rv = rule_view(right);
    let mut rules: Vec<Box<Rule>> = Vec::new();
    rules.push(Box::new(l));
    match right {
        Rule::Or(mut v) => {
            proof {
                lemma_or_view(v);
            }
            let ghost vv = v@;
            rules.append(&mut v);
            assert(rules_view(rules@) =~= seq![lv] + rules_view(vv));
        },
        other => {
            rules.push(Box::new(other));
            assert(rules_view(rules@) =~= seq![lv, rv]);
        },
    }
    proof {
        lemma_or_view(rules);
    }
    Rule::Or(rules)
}

/// Reads definitions from a sequence of tokens.
#[derive(Debug)]
pub struct Parser<'a> {
    tokens: &'a [PositionedToken],
    cursor: usize,
}

impl<'a> Parser<'a> {
    /// The tokens being read, as values.
    pub closed spec fn token_values(&self) -> Seq<(Lexeme, int)> {
        tokens_view(self.tokens@)
    }

    /// The index of the next token to read.
    pub closed spec fn position(&self) -> int {
        self.cursor as int
    }

    /// The index lies within the tokens.
    pub closed spec fn inv(&self) -> bool {
        self.cursor <= self.tokens@.len()
    }

    /// How many tokens are left.
    pub closed spec fn left(&self) -> int {
        self.tokens@.len() - self.cursor
    }

    /// A parser at the first of `tokens`.
    pub fn new<'b>(tokens: &'b [PositionedToken]) -> (r: Parser<'b>)
        ensures
            r.inv(),
            r.token_values() == tokens_view(tokens@),
            r.position() == 0,
    {
        Parser { tokens, cursor: 0 }
    }

    fn bump(&mut self, size: usize)
        requires
            old(self).inv(),
            old(self).cursor + size <= old(self).tokens@.len(),
        ensures
            final(self).tokens == old(self).tokens,
            final(self).cursor == old(self).cursor + size,
    {
        proof {
            assert(self.tokens@.len() == self.tokens.len());
        }
        self.cursor = self.cursor + size;
    }

    fn is_empty(&self) -> (r: bool)
        requires
            self.inv(),
        ensures
            r == (self.cursor == self.tokens@.len()),
    {
        self.cursor == self.tokens.len()
    }

    fn make_error(&self, kind: ParseErrorKind) -> (r: ParseError)
        requires
            self.inv(),
        ensures
            r@ == failure_at(self.token_values(), self.position(), kind),
    {
        if self.cursor < self.tokens.len() {
            ParseError { position: Some(self.tokens[self.cursor].1), kind }
        } else {
            ParseError { position: None, kind }
        }
    }

    /// Reads definitions until the tokens run out.
    #[verifier::loop_isolation(false)]
    pub fn eat(&mut self) -> (r: Result<Vec<Box<Definition>>, ParseError>)
        requires
            old(self).inv(),
        ensures
            final(self).inv(),
            final(self).token_values() == old(self).token_values(),
            match p_definitions(old(self).token_values(), old(self).position()) {
                Ok(ds) => r matches Ok(v) && definitions_view(v@) == ds,
                Err(e) => r matches Err(x) && x@ == e,
            },
    {
        let ghost ts = self.token_values();
        let ghost i0 = self.position();
        let mut defs: Vec<Box<Definition>> = Vec::new();
        while !self.is_empty()
            invariant
                self.inv(),
                self.token_values() == ts,
                p_definitions(ts, i0) == prepend_definitions(definitions_view(defs@), p_definitions(ts, self.position())),
            decreases self.left(),
        {
            let ghost i = self.position();
            let ghost before = defs@;
            match self.eat_single_def() {
                Ok(d) => {
                    defs.push(d);
                    proof {
                        assert(definitions_view(defs@) =~= definitions_view(before) + seq![(d.identifier@, rule_view(*d.rule))]);
                        let ((name, rv), j) = p_definition(ts, i)->Ok_0;
                        if let Ok(rest) = p_definitions(ts, j) {
                            assert(definitions_view(before) + (seq![(name, rv)] + rest) =~= definitions_view(defs@) + rest);
                        }
                    }
                },
                Err(e) => {
                    return Err(e);
                },
            }
        }
        assert(definitions_view(defs@) + seq![] =~= definitions_view(defs@));
        Ok(defs)
    }

    fn eat_single_def(&mut self) -> (r: Result<Box<Definition>, ParseError>)
        requires
            old(self).inv(),
            old(self).cursor < old(self).tokens@.len(),
        ensures
            final(self).inv(),
            final(self).tokens == old(self).tokens,
            final(self).token_values() == old(self).token_values(),
            match p_definition(old(self).token_values(), old(self).position()) {
                Ok((d, j)) => r matches Ok(b) && (b.identifier@, rule_view(*b.rule)) == d && final(self).position() == j
                    && j > old(self).position(),
                Err(e) => r matches Err(x) && x@ == e,
            },
    {
        let ghost ts = self.token_values();
        let tokens = self.tokens;
        let i = self.cursor;
        let len = tokens.len();
        if len - i > 1 && is_equals(&tokens[i + 1].0) {
            if let Token::Identifier(identifier) = &tokens[i].0 {
                assert(ts[i as int] == tokens@[i as int]@);
                assert(ts[i + 1] == tokens@[i + 1]@);
                self.bump(2);
                let rule = match self.eat_rule() {
                    Ok(rule) => rule,
                    Err(e) => {
                        return Err(e);
                    },
                };
                let j = self.cursor;
                if j < len && is_token_end(&tokens[j].0) {
                    assert(ts[j as int] == tokens@[j as int]@);
                    self.bump(1);
                    return Ok(Box::new(Definition { identifier: identifier.clone(), rule }));
                }
                if j < len {
                    assert(ts[j as int] == tokens@[j as int]@);
                }
                return Err(self.make_error(ParseErrorKind::InvalidDefinition));
            }
        }
        if len - i > 1 {
            assert(ts[i as int] == tokens@[i as int]@);
            assert(ts[i + 1] == tokens@[i + 1]@);
        }
        Err(self.make_error(ParseErrorKind::InvalidDefinition))
    }

    fn eat_rule(&mut self) -> (r: Result<Box<Rule>, ParseError>)
        requires
            old(self).inv(),
        ensures
            final(self).inv(),
            final(self).tokens == old(self).tokens,
            final(self).token_values() == old(self).token_values(),
            match p_rule(old(self).token_values(), old(self).position()) {
                Ok((rv, j)) => r matches Ok(b) && rule_view(*b) == rv && final(self).position() == j
                    && old(self).position() <= j,
                Err(e) => r matches Err(x) && x@ == e,
            },
        decreases old(self).left(), 4int,
    {
        let ghost ts = self.token_values();
        let ghost i0 = self.position();
        let tokens = self.tokens;
        let len = tokens.len();
        let mut seq: Vec<Box<Rule>> = Vec::new();
        assert(rules_view(seq@) =~= seq![]);
        loop
            invariant_except_break
                p_rule(ts, i0) == p_rule_from(ts, self.position(), rules_view(seq@)),
            invariant
                self.inv(),
                self.tokens == tokens,
                old(self).tokens == tokens,
                old(self).position() == i0,
                len == tokens@.len(),
                ts == tokens_view(tokens@),
                i0 <= self.position(),
                seq@.len() == 0 ==> self.position() == i0,
            ensures
                self.inv(),
                self.tokens == tokens,
                old(self).tokens == tokens,
                i0 <= self.position(),
                p_rule(ts, i0) == (if seq@.len() == 1 {
                    Ok::<(RuleV, int), ParseFailure>((rules_view(seq@)[0], self.position()))
                } else {
                    Ok((RuleV::Sequence(rules_view(seq@)), self.position()))
                }),
            decreases self.left(),
        {
            let ghost i = self.position();
            let ghost before = seq@;
            let rule = match self.eat_element() {
                Ok(rule) => rule,
                Err(e) => {
                    return Err(e);
                },
            };
            seq.push(Box::new(rule));
            assert(rules_view(seq@) =~= rules_view(before).push(rule_view(rule)));
            let j = self.cursor;
            if j < len {
                assert(ts[j as int] == tokens@[j as int]@);
                if is_separator(&tokens[j].0) {
                    self.bump(1);
                } else {
                    break;
                }
            } else {
                return Err(self.make_error(ParseErrorKind::InvalidRule));
            }
        }
        if seq.len() == 1 {
            let only = seq.pop().unwrap();
            Ok(only)
        } else {
            proof {
                lemma_or_view(seq);
            }
            Ok(Box::new(Rule::Sequence(seq)))
        }
    }

    fn eat_element(&mut self) -> (r: Result<Rule, ParseError>)
        requires
            old(self).inv(),
        ensures
            final(self).inv(),
            final(self).tokens == old(self).tokens,
            final(self).token_values() == old(self).token_values(),
            match p_element(old(self).token_values(), old(self).position()) {
                Ok((rv, j)) => r matches Ok(b) && rule_view(b) == rv && final(self).position() == j
                    && old(self).position() <= j,
                Err(e) => r matches Err(x) && x@ == e,
            },
        decreases old(self).left(), 3int,
    {
        self.eat_element_from(None)
    }

    /// Reads on with `left` read so far, as `p_element_from` does.
    fn eat_element_from(&mut self, left: Option<Rule>) -> (r: Result<Rule, ParseError>)
        requires
            old(self).inv(),
        ensures
            final(self).inv(),
            final(self).tokens == old(self).tokens,
            final(self).token_values() == old(self).token_values(),
            match p_element_from(old(self).token_values(), old(self).position(), option_view(left)) {
                Ok((rv, j)) => r matches Ok(b) && rule_view(b) == rv && final(self).position() == j
                    && old(self).position() <= j,
                Err(e) => r matches Err(x) && x@ == e,
            },
        decreases old(self).left(), 2int,
    {
        if self.cursor >= self.tokens.len() {
            match left {
                Some(l) => Ok(l),
                None => Err(self.make_error(ParseErrorKind::InvalidRule)),
            }
        } else {
            match left {
                Some(l) => self.eat_operator(l),
                None => self.eat_operand(),
            }
        }
    }

    /// After an operand `l`: an operator `|` or `-` and its right side, or the end of the element.
    fn eat_operator(&mut self, l: Rule) -> (r: Result<Rule, ParseError>)
        requires
            old(self).inv(),
            old(self).cursor < old(self).tokens@.len(),
        ensures
            final(self).inv(),
            final(self).tokens == old(self).tokens,
            final(self).token_values() == old(self).token_values(),
            match p_element_from(old(self).token_values(), old(self).position(), Some(rule_view(l))) {
                Ok((rv, j)) => r matches Ok(b) && rule_view(b) == rv && final(self).position() == j
                    && old(self).position() <= j,
                Err(e) => r matches Err(x) && x@ == e,
            },
        decreases old(self).left(), 1int,
    {
        let ghost ts = self.token_values();
        let tokens = self.tokens;
        let i = self.cursor;
        assert(ts[i as int] == tokens@[i as int]@);
        match &tokens[i].0 {
            Token::Or => {
                self.bump(1);
                let right = match self.eat_element() {
                    Ok(right) => right,
                    Err(e) => {
                        return Err(e);
                    },
                };
                let joined = join_alternatives(l, right);
                self.eat_element_from(Some(joined))
            },
            Token::Exclude => {
                self.bump(1);
                let right = match self.eat_element() {
                    Ok(right) => right,
                    Err(e) => {
                        return Err(e);
                    },
                };
                self.eat_element_from(Some(Rule::Exclude { from: Box::new(l), target: Box::new(right) }))
            },
            _ => Ok(l),
        }
    }

    /// The first operand of an element: a bracketed rule, an identifier or a string.
    fn eat_operand(&mut self) -> (r: Result<Rule, ParseError>)
        requires
            old(self).inv(),
            old(self).cursor < old(self).tokens@.len(),
        ensures
            final(self).inv(),
            final(self).tokens == old(self).tokens,
            final(self).token_values() == old(self).token_values(),
            match p_element_from(old(self).token_values(), old(self).position(), None) {
                Ok((rv, j)) => r matches Ok(b) && rule_view(b) == rv && final(self).position() == j
                    && old(self).position() <= j,
                Err(e) => r matches Err(x) && x@ == e,
            },
        decreases old(self).left(), 1int,
    {
        let ghost ts = self.token_values();
        let tokens = self.tokens;
        let i = self.cursor;
        assert(ts[i as int] == tokens@[i as int]@);
        let kind: u8 = match &tokens[i].0 {
            Token::GroupBegin => 0,
            Token::RepeatBegin => 1,
            Token::OptionBegin => 2,
            Token::Identifier(s) => {
                self.bump(1);
                return self.eat_element_from(Some(Rule::IdentifierRef(s.clone())));
            },
            Token::String(s) => {
                self.bump(1);
                let rule = self.convert_string_rule(s.as_str());
                return self.eat_element_from(Some(rule));
            },
            _ => {
                return Err(self.make_error(ParseErrorKind::InvalidRule));
            },
        };
        assert(p_element_from(ts, i as int, None) == p_bracket(ts, i as int, kind as int));
        match self.eat_bracket(kind) {
            Ok(bracket) => self.eat_element_from(bracket),
            Err(e) => Err(e),
        }
    }

    /// Reads a bracketed rule whose opening bracket of `kind` (0 a group, 1 a
    /// repetition, 2 an option) is at the cursor; nothing when the closing
    /// bracket is missing, in which case the inner rule is dropped.
    fn eat_bracket(&mut self, kind: u8) -> (r: Result<Option<Rule>, ParseError>)
        requires
            old(self).inv(),
            old(self).cursor < old(self).tokens@.len(),
            kind <= 2,
        ensures
            final(self).inv(),
            final(self).tokens == old(self).tokens,
            final(self).token_values() == old(self).token_values(),
            match p_rule(old(self).token_values(), old(self).position() + 1) {
                Ok((inner, j)) => r matches Ok(o) && old(self).position() < j <= old(self).token_values().len() && if j
                    < old(self).token_values().len() && closes(old(self).token_values()[j].0, kind as int) {
                    o matches Some(b) && rule_view(b) == bracketed(inner, kind as int) && final(self).position() == j + 1
                } else {
                    o is None && final(self).position() == j
                },
                Err(e) => r matches Err(x) && x@ == e,
            },
        decreases old(self).left(), 0int,
    {
        let ghost ts = self.token_values();
        let tokens = self.tokens;
        self.bump(1);
        let inner = match self.eat_rule() {
            Ok(inner) => inner,
            Err(e) => {
                return Err(e);
            },
        };
        let j = self.cursor;
        if j < tokens.len() && closes_bracket(&tokens[j].0, kind) {
            assert(ts[j as int] == tokens@[j as int]@);
            self.bump(1);
            let rule = if kind == 0 {
                Rule::Group(inner)
            } else if kind == 1 {
                Rule::Repeat(inner)
            } else {
                Rule::Option(inner)
            };
            Ok(Some(rule))
        } else {
            if j < tokens.len() {
                assert(ts[j as int] == tokens@[j as int]@);
            }
            Ok(None)
        }
    }

    /// The rule of a string literal: its characters in sequence.
    pub fn convert_string_rule(&self, text: &str) -> (r: Rule)
        ensures
            rule_view(r) == string_rule(text@),
    {
        let n = text.unicode_len();
        let mut v: Vec<Box<Rule>> = Vec::new();
        let mut i: usize = 0;
        while i < n
            invariant
                i <= n,
                n == text@.len(),
                v@.len() == i,
                forall|k: int| 0 <= k < i ==> *(#[trigger] v@[k]) == Rule::Character(text@[k]),
            decreases n - i,
        {
            let c = text.get_char(i);
            v.push(Box::new(Rule::Character(c)));
            i += 1;
        }
        proof {
            lemma_or_view(v);
            let sv = character_rules(text@);
            assert forall|k: int| 0 <= k < v@.len() implies #[trigger] rules_view(v@)[k] == sv[k] by {
                assert(*v@[k] == Rule::Character(text@[k]));
            }
            assert(rules_view(v@).len() == sv.len());
            assert(rules_view(v@) =~= sv);
        }
        Rule::Sequence(v)
    }
}

} // verus!
