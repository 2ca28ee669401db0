use ebnf_grammar::ebnf2gram::{BuildError, Ebnf2Gram};
use ebnf_grammar::first::{create_first_set, first_pass, first_sets};
use ebnf_grammar::follow::{create_closure_set, create_follow_set, follow_pass};
use ebnf_grammar::lexer::Tokenizer;
use ebnf_grammar::parser::{Definition, Parser, Rule};
use ebnf_grammar::symbol::{Grammer, GrammerIdentifier, GrammerSet};

fn def(name: &str, rule: Rule) -> Box<Definition> {
    Box::new(Definition { identifier: name.to_string(), rule: Box::new(rule) })
}

fn lit(s: &str) -> Rule {
    Rule::Sequence(s.chars().map(|c| Box::new(Rule::Character(c))).collect())
}

fn id(s: &str) -> Rule {
    Rule::IdentifierRef(s.to_string())
}

fn nt(n: u64) -> Grammer {
    Grammer::Grammer(GrammerIdentifier(n))
}

fn ch(c: char) -> Grammer {
    Grammer::Character(c)
}

fn same_set(a: &[Grammer], b: &[Grammer]) -> bool {
    a.iter().all(|x| b.contains(x)) && b.iter().all(|x| a.contains(x))
}

fn build_text(text: &str) -> Result<Ebnf2Gram, BuildError> {
    let chars: Vec<char> = text.chars().collect();
    let tokens = Tokenizer::new(&chars).read_definition().unwrap();
    let defs = Parser::new(&tokens).eat().unwrap();
    Ebnf2Gram::process(defs)
}

fn digits() -> Vec<Box<Definition>> {
    vec![
        def("Digit", Rule::Or(vec![Box::new(lit("0")), Box::new(lit("1"))])),
        def("Number", Rule::Sequence(vec![Box::new(id("Digit")), Box::new(Rule::Repeat(Box::new(id("Digit"))))])),
    ]
}

#[test]
fn digits_store_shape() {
    let built = Ebnf2Gram::process(digits()).unwrap();
    let g = built.get_grammer_set();
    // Digit 0, Number 1, the reserved slot 2, the repetition 3.
    assert_eq!(g.rules.len(), 4);
    assert_eq!(g.rules[0], vec![vec![ch('0')], vec![ch('1')]]);
    assert_eq!(g.rules[1], vec![vec![nt(0), nt(3)]]);
    assert_eq!(g.rules[3], vec![vec![nt(0), nt(3)], vec![Grammer::Empty]]);
    assert!(g.rules[2].is_empty());
    let map = built.get_identifier_map();
    assert_eq!(
        map,
        &vec![(String::from("Digit"), GrammerIdentifier(0)), (String::from("Number"), GrammerIdentifier(1))]
    );
}

#[test]
fn nested_alternation_keeps_its_helper() {
    let built = Ebnf2Gram::process(vec![def(
        "A",
        Rule::Sequence(vec![
            Box::new(lit("x")),
            Box::new(Rule::Group(Box::new(Rule::Or(vec![Box::new(lit("a")), Box::new(lit("b"))])))),
        ]),
    )])
    .unwrap();
    let g = built.get_grammer_set();
    assert_eq!(g.rules[0], vec![vec![ch('x'), nt(2)]]);
    assert_eq!(g.rules[2], vec![vec![nt(3)]]);
    assert_eq!(g.rules[3], vec![vec![ch('a')], vec![ch('b')]]);
}

#[test]
fn top_level_alternation_with_empty_alternative() {
    let built = Ebnf2Gram::process(vec![def("A", Rule::Or(vec![Box::new(lit("")), Box::new(lit("a"))]))]).unwrap();
    let g = built.get_grammer_set();
    assert_eq!(g.rules.len(), 2);
    assert_eq!(g.rules[0], vec![vec![Grammer::Empty], vec![ch('a')]]);
    assert!(same_set(&create_first_set(g, &nt(0)), &[ch('a'), Grammer::Empty]));
}

#[test]
fn digits_first_and_follow() {
    let built = Ebnf2Gram::process(digits()).unwrap();
    let g = built.get_grammer_set();
    let first_number = create_first_set(g, &nt(1));
    assert!(same_set(&first_number, &[ch('0'), ch('1')]));
    let first_repeat = create_first_set(g, &nt(3));
    assert!(same_set(&first_repeat, &[ch('0'), ch('1'), Grammer::Empty]));
    let follow = create_follow_set(g);
    assert!(follow[0].contains(&ch('0')));
    assert!(follow[0].contains(&ch('1')));
    assert!(follow[1].is_empty());
}

#[test]
fn digits_from_text() {
    let built = build_text("Digit = \"0\" | \"1\" ;\nNumber = Digit , { Digit } ;\n").unwrap();
    let g = built.get_grammer_set();
    assert_eq!(g.rules[0], vec![vec![ch('0')], vec![ch('1')]]);
    assert_eq!(g.rules[1], vec![vec![nt(0), nt(3)]]);
    assert_eq!(g.rules[3], vec![vec![nt(0), nt(3)], vec![Grammer::Empty]]);
}

#[test]
fn digits_annotations() {
    let built = Ebnf2Gram::process(digits()).unwrap();
    let a = built.create_annotations();
    assert_eq!(a.endchars, vec!['0', '1']);
    assert_eq!(a.identifiers, vec![0, 1, 3]);
    assert_eq!(a.first_set.len(), 5);
    assert_eq!(a.first_set[0], (ch('0'), vec![ch('0')]));
    assert_eq!(a.first_set[1], (ch('1'), vec![ch('1')]));
    assert_eq!(a.first_set[3].0, nt(1));
    assert!(same_set(&a.first_set[3].1, &[ch('0'), ch('1')]));
    assert_eq!(a.follow_set.len(), 3);
    assert_eq!(a.follow_set[0].0, GrammerIdentifier(0));
    assert!(same_set(&a.follow_set[0].1, &[ch('0'), ch('1'), Grammer::Empty]));
    assert_eq!(a.follow_set[1], (GrammerIdentifier(1), vec![]));
}

#[test]
fn unknown_identifier_is_reported() {
    let r = Ebnf2Gram::process(vec![def("X", id("Y"))]);
    match r {
        Err(BuildError::UnknownIdentifier(name)) => assert_eq!(name, "Y"),
        _ => panic!("expected an unknown identifier"),
    }
}

#[test]
fn set_difference_is_unsupported() {
    let r = Ebnf2Gram::process(vec![def(
        "X",
        Rule::Exclude { from: Box::new(lit("a")), target: Box::new(lit("b")) },
    )]);
    assert!(matches!(r, Err(BuildError::UnsupportedConstruct)));
}

#[test]
fn plain_grammar_has_one_production_per_rule() {
    let built = Ebnf2Gram::process(vec![
        def("A", lit("ab")),
        def("B", Rule::Sequence(vec![Box::new(id("A")), Box::new(lit("c"))])),
        def("C", id("B")),
    ])
    .unwrap();
    let g = built.get_grammer_set();
    assert_eq!(g.rules.len(), 4);
    let keys: Vec<usize> = (0..g.rules.len()).filter(|i| !g.rules[*i].is_empty()).collect();
    assert_eq!(keys, vec![0, 1, 2]);
    assert_eq!(g.rules[0], vec![vec![ch('a'), ch('b')]]);
    assert_eq!(g.rules[1], vec![vec![nt(0), ch('c')]]);
    assert_eq!(g.rules[2], vec![vec![nt(1)]]);
}

#[test]
fn helper_ids_lie_above_named_ids() {
    let built = Ebnf2Gram::process(vec![
        def("A", Rule::Group(Box::new(lit("x")))),
        def("B", Rule::Option(Box::new(id("A")))),
    ])
    .unwrap();
    let g = built.get_grammer_set();
    assert_eq!(g.rules[0], vec![vec![nt(3)]]);
    assert_eq!(g.rules[1], vec![vec![nt(4)]]);
    assert_eq!(g.rules[3], vec![vec![ch('x')]]);
    assert_eq!(g.rules[4], vec![vec![nt(0)], vec![Grammer::Empty]]);
    let a = built.create_annotations();
    assert_eq!(a.identifiers, vec![0, 1, 3, 4]);
}

#[test]
fn repetition_encoding() {
    let built = Ebnf2Gram::process(vec![def("A", Rule::Repeat(Box::new(lit("xy"))))]).unwrap();
    let g = built.get_grammer_set();
    assert_eq!(g.rules[0], vec![vec![nt(2)]]);
    assert_eq!(g.rules[2], vec![vec![ch('x'), ch('y'), nt(2)], vec![Grammer::Empty]]);
}

#[test]
fn empty_literal_becomes_empty_production() {
    let built = Ebnf2Gram::process(vec![
        def("A", lit("")),
        def("B", Rule::Option(Box::new(lit("")))),
    ])
    .unwrap();
    let g = built.get_grammer_set();
    assert_eq!(g.rules[0], vec![vec![Grammer::Empty]]);
    assert_eq!(g.rules[3], vec![vec![Grammer::Empty], vec![Grammer::Empty]]);
    assert!(same_set(&create_first_set(g, &nt(0)), &[Grammer::Empty]));
}

#[test]
fn duplicate_names_share_the_last_identifier() {
    let built = Ebnf2Gram::process(vec![def("A", lit("a")), def("A", lit("b"))]).unwrap();
    let g = built.get_grammer_set();
    assert!(g.rules[0].is_empty());
    assert_eq!(g.rules[1], vec![vec![ch('a')], vec![ch('b')]]);
    assert_eq!(built.get_identifier_map(), &vec![(String::from("A"), GrammerIdentifier(1))]);
}

#[test]
fn nullable_nonterminals() {
    let built = Ebnf2Gram::process(vec![
        def("A", Rule::Repeat(Box::new(lit("a")))),
        def("B", Rule::Sequence(vec![Box::new(id("A")), Box::new(lit("b"))])),
        def("C", Rule::Sequence(vec![Box::new(id("A")), Box::new(id("A"))])),
    ])
    .unwrap();
    let g = built.get_grammer_set();
    let a = create_first_set(g, &nt(0));
    assert!(same_set(&a, &[ch('a'), Grammer::Empty]));
    let b = create_first_set(g, &nt(1));
    assert!(same_set(&b, &[ch('a'), ch('b')]));
    let c = create_first_set(g, &nt(2));
    assert!(same_set(&c, &[ch('a'), Grammer::Empty]));
}

#[test]
fn left_recursion_terminates() {
    let built = Ebnf2Gram::process(vec![def(
        "E",
        Rule::Or(vec![
            Box::new(Rule::Sequence(vec![Box::new(id("E")), Box::new(lit("+"))])),
            Box::new(lit("n")),
        ]),
    )])
    .unwrap();
    let g = built.get_grammer_set();
    assert!(same_set(&create_first_set(g, &nt(0)), &[ch('n')]));
    let follow = create_follow_set(g);
    assert!(same_set(&follow[0], &[ch('+')]));
}

#[test]
fn follow_is_a_fixed_point() {
    let built = Ebnf2Gram::process(digits()).unwrap();
    let g = built.get_grammer_set();
    let fi = first_sets(g);
    let mut fo = create_follow_set(g);
    let again = create_follow_set(g);
    assert_eq!(fo, again);
    let before = fo.clone();
    assert!(!follow_pass(g, &fi, &mut fo));
    assert_eq!(fo, before);
}

#[test]
fn first_pass_from_empty_grows() {
    let built = Ebnf2Gram::process(digits()).unwrap();
    let g = built.get_grammer_set();
    let mut cur: Vec<Vec<Grammer>> = vec![Vec::new(); g.rules.len()];
    assert!(first_pass(g, &mut cur));
    let fi = first_sets(g);
    let mut settled = fi.clone();
    assert!(!first_pass(g, &mut settled));
    assert_eq!(settled, fi);
}

#[test]
fn follow_through_nullable_tail() {
    // S = A , B ; B = { "b" } ; A = "a" ; with S at the top: FOLLOW(A) holds
    // FIRST(B) and, B being nullable, FOLLOW(S).
    let built = Ebnf2Gram::process(vec![
        def("S", Rule::Sequence(vec![Box::new(id("A")), Box::new(id("B")), Box::new(lit("c"))])),
        def("B", Rule::Repeat(Box::new(lit("b")))),
        def("A", lit("a")),
    ])
    .unwrap();
    let g = built.get_grammer_set();
    let follow = create_follow_set(g);
    assert!(same_set(&follow[2], &[ch('b'), ch('c'), Grammer::Empty]));
    assert!(same_set(&follow[1], &[ch('c')]));
}

#[test]
fn closure_returns_items_unchanged() {
    let built = Ebnf2Gram::process(digits()).unwrap();
    let g = built.get_grammer_set();
    let items = GrammerSet { rules: vec![vec![vec![Grammer::Dot, nt(0)]]] };
    let closed = create_closure_set(g, &items);
    assert_eq!(closed.rules, items.rules);
}
