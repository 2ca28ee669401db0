use ebnf_grammar::lexer::{PositionedToken, Token, Tokenizer};

#[test]
fn read_equals_test() {
    assert_eq!(Tokenizer::new(&['a'][..]).read_equals(), None);
    assert_eq!(
        Tokenizer::new(&['=', 'x'][..]).read_equals(),
        Some(PositionedToken(Token::Equals, 0))
    );
    assert_eq!(
        Tokenizer::new(&[':', ':', '=', 'x'][..]).read_equals(),
        Some(PositionedToken(Token::Equals, 0))
    );
}

#[test]
fn read_space_test() {
    assert_eq!(Tokenizer::new(&['a', ' ', 'x'][..]).read_space(), None);
    assert_eq!(
        Tokenizer::new(&[' ', ' ', 'x'][..]).read_space(),
        Some(PositionedToken(Token::Space(2), 0))
    );
    assert_eq!(
        Tokenizer::new(&[' ', ' '][..]).read_space(),
        Some(PositionedToken(Token::Space(2), 0))
    );
}

#[test]
fn read_string_test() {
    assert_eq!(
        Tokenizer::new(&['\'', 'x', 'x', '\''][..]).read_string(),
        Some(PositionedToken(Token::String(String::from("xx")), 0))
    );
    assert_eq!(
        Tokenizer::new(&['\'', '"', 'x', '\''][..]).read_string(),
        Some(PositionedToken(Token::String(String::from("\"x")), 0))
    );
    assert_eq!(
        Tokenizer::new(&['\'', 'x', 'x', '"'][..]).read_string(),
        None
    );
    assert_eq!(
        Tokenizer::new(&['"', 'x', 'x', '\''][..]).read_string(),
        None
    );
    assert_eq!(Tokenizer::new(&['"', 'x'][..]).read_string(), None);
}

fn chars(s: &str) -> Vec<char> {
    s.chars().collect()
}

#[test]
fn read_identifier_trims_spaces() {
    let text = chars("  foo bar  =");
    let mut t = Tokenizer::new(&text);
    assert_eq!(
        t.read_identifier(),
        Some(PositionedToken(Token::Identifier(String::from("foo bar")), 0))
    );
    assert_eq!(t.read_equals(), Some(PositionedToken(Token::Equals, 11)));
}

#[test]
fn read_identifier_of_spaces_only_reads_nothing() {
    let text = chars("   ;");
    let mut t = Tokenizer::new(&text);
    assert_eq!(t.read_identifier(), None);
    assert_eq!(t.read_space(), Some(PositionedToken(Token::Space(3), 0)));
    assert_eq!(t.read_single_token(), Some(PositionedToken(Token::TokenEnd, 3)));
}

#[test]
fn read_single_token_marks() {
    let text = chars("[](){},;|-");
    let mut t = Tokenizer::new(&text);
    let expected = vec![
        Token::OptionBegin,
        Token::OptionEnd,
        Token::GroupBegin,
        Token::GroupEnd,
        Token::RepeatBegin,
        Token::RepeatEnd,
        Token::Separator,
        Token::TokenEnd,
        Token::Or,
        Token::Exclude,
    ];
    for (i, tok) in expected.into_iter().enumerate() {
        assert_eq!(t.read_single_token(), Some(PositionedToken(tok, i)));
    }
    assert_eq!(t.read_single_token(), None);
}

#[test]
fn read_lineend_runs() {
    let text = chars("\r\n\nx");
    let mut t = Tokenizer::new(&text);
    assert_eq!(t.read_lineend(), Some(PositionedToken(Token::LineEnd, 0)));
    assert_eq!(t.read_lineend(), None);
}

#[test]
fn read_definition_whole_text() {
    let text = chars("Digit = \"0\" | \"1\" ;\nNumber ::= Digit , { Digit } ;\n");
    let tokens = Tokenizer::new(&text).read_definition().unwrap();
    let kinds: Vec<Token> = tokens.into_iter().map(|t| t.0).collect();
    assert_eq!(
        kinds,
        vec![
            Token::Identifier(String::from("Digit")),
            Token::Equals,
            Token::String(String::from("0")),
            Token::Or,
            Token::String(String::from("1")),
            Token::TokenEnd,
            Token::Identifier(String::from("Number")),
            Token::Equals,
            Token::Identifier(String::from("Digit")),
            Token::Separator,
            Token::RepeatBegin,
            Token::Identifier(String::from("Digit")),
            Token::RepeatEnd,
            Token::TokenEnd,
        ]
    );
}

#[test]
fn read_definition_positions() {
    let text = chars("a=b;");
    let tokens = Tokenizer::new(&text).read_definition().unwrap();
    assert_eq!(
        tokens,
        vec![
            PositionedToken(Token::Identifier(String::from("a")), 0),
            PositionedToken(Token::Equals, 1),
            PositionedToken(Token::Identifier(String::from("b")), 2),
            PositionedToken(Token::TokenEnd, 3),
        ]
    );
}

#[test]
fn read_definition_rejects_unknown_character() {
    let text = chars("a = b ; #");
    assert_eq!(Tokenizer::new(&text).read_definition(), None);
}

#[test]
fn read_definition_unterminated_string_ends_reading() {
    let text = chars("a = 'bc");
    let tokens = Tokenizer::new(&text).read_definition().unwrap();
    assert_eq!(
        tokens,
        vec![
            PositionedToken(Token::Identifier(String::from("a")), 0),
            PositionedToken(Token::Equals, 2),
        ]
    );
}

#[test]
fn read_definition_empty_text() {
    let text: Vec<char> = Vec::new();
    assert_eq!(Tokenizer::new(&text).read_definition(), Some(Vec::new()));
}
