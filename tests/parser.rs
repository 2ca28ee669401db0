use ebnf_grammar::lexer::{PositionedToken, Token, Tokenizer};
use ebnf_grammar::parser::{ParseError, ParseErrorKind, Parser, Rule};

fn tokens(text: &str) -> Vec<PositionedToken> {
    let chars: Vec<char> = text.chars().collect();
    Tokenizer::new(&chars).read_definition().unwrap()
}

fn show(r: &Rule) -> String {
    match r {
        Rule::Character(c) => format!("'{}'", c),
        Rule::IdentifierRef(s) => s.clone(),
        Rule::Exclude { from, target } => format!("({} - {})", show(from), show(target)),
        Rule::Sequence(v) => format!("seq[{}]", v.iter().map(|x| show(x)).collect::<Vec<_>>().join(" ")),
        Rule::Or(v) => format!("or[{}]", v.iter().map(|x| show(x)).collect::<Vec<_>>().join(" ")),
        Rule::Repeat(x) => format!("{{{}}}", show(x)),
        Rule::Option(x) => format!("[{}]", show(x)),
        Rule::Group(x) => format!("({})", show(x)),
    }
}

fn parse_one(text: &str) -> String {
    let toks = tokens(text);
    let defs = Parser::new(&toks).eat().unwrap();
    assert_eq!(defs.len(), 1);
    format!("{} = {}", defs[0].identifier, show(&defs[0].rule))
}

#[test]
fn parses_sequence_and_repeat() {
    assert_eq!(parse_one("Number = Digit , { Digit } ;"), "Number = seq[Digit {Digit}]");
}

#[test]
fn parses_alternatives_flat() {
    assert_eq!(parse_one("D = 'a' | 'b' | c ;"), "D = or[seq['a'] seq['b'] c]");
}

#[test]
fn parses_option_group_and_exclude() {
    assert_eq!(parse_one("X = [ a ] , ( b ) , c - d ;"), "X = seq[[a] (b) (c - d)]");
}

#[test]
fn convert_string_rule_gives_characters() {
    let toks: Vec<PositionedToken> = Vec::new();
    let p = Parser::new(&toks);
    assert_eq!(show(&p.convert_string_rule("ab")), "seq['a' 'b']");
    assert_eq!(show(&p.convert_string_rule("")), "seq[]");
}

#[test]
fn parses_several_definitions() {
    let toks = tokens("A = 'x' ;\nB = A , A ;\n");
    let defs = Parser::new(&toks).eat().unwrap();
    assert_eq!(defs.len(), 2);
    assert_eq!(defs[1].identifier, "B");
    assert_eq!(show(&defs[1].rule), "seq[A A]");
}

#[test]
fn missing_terminator_is_invalid_definition() {
    // "b c" is one identifier: identifiers may hold inner spaces.
    let toks = tokens("A = b c = d ;");
    let err = Parser::new(&toks).eat().unwrap_err();
    assert_eq!(err, ParseError { position: Some(8), kind: ParseErrorKind::InvalidDefinition });
}

#[test]
fn definition_without_equals_is_invalid() {
    let toks = tokens("A b ;");
    let err = Parser::new(&toks).eat().unwrap_err();
    assert_eq!(err, ParseError { position: Some(0), kind: ParseErrorKind::InvalidDefinition });
}

#[test]
fn rule_running_out_of_tokens_has_no_position() {
    let toks = tokens("A = b ,");
    let err = Parser::new(&toks).eat().unwrap_err();
    assert_eq!(err, ParseError { position: None, kind: ParseErrorKind::InvalidRule });
}

#[test]
fn missing_operand_is_invalid_rule() {
    let toks = tokens("A = ;");
    let err = Parser::new(&toks).eat().unwrap_err();
    assert_eq!(err, ParseError { position: Some(4), kind: ParseErrorKind::InvalidRule });
}

#[test]
fn no_tokens_no_definitions() {
    let toks: Vec<PositionedToken> = Vec::new();
    assert_eq!(Parser::new(&toks).eat().unwrap().len(), 0);
    let _ = Token::LineEnd;
}
