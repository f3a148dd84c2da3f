use parge::error::LexerError;
use parge::lexer::Lexer;
use parge::parser::parse_rules;
use parge::rules::Element;
use parge::rules::Rule;
use parge::scanner::Token;

fn token(name: &str, elements: Vec<Element>) -> Rule {
    Rule {
        is_terminal: true,
        export: false,
        name: name.to_string(),
        element: Element::Group { subelems: elements },
        constructor_name: None,
        constructor_vars: None,
    }
}

fn literal(text: &str) -> Element {
    Element::Literal { lit: text.to_string() }
}

fn set(chars: &str, ranges: &[(char, char)]) -> Element {
    Element::CharSet { chars: chars.chars().collect(), ranges: ranges.to_vec() }
}

fn star(inner: Element) -> Element {
    Element::ZeroOrMore { inner: Box::new(inner) }
}

fn plus(inner: Element) -> Element {
    Element::OneOrMore { inner: Box::new(inner) }
}

fn pairs(list: &[(&str, &str)]) -> Vec<(String, String)> {
    list.iter().map(|(k, t)| (k.to_string(), t.to_string())).collect()
}

fn keyword_rules() -> Vec<Rule> {
    vec![
        token("IF", vec![literal("if")]),
        token(
            "ID",
            vec![
                set("", &[('A', 'Z'), ('a', 'z')]),
                star(set("", &[('A', 'Z'), ('a', 'z'), ('0', '9')])),
            ],
        ),
    ]
}

#[test]
fn keyword_and_identifier_share_a_word() {
    // "if" is a whole match of both rules, so the rules as written have no lexer.
    assert_eq!(Lexer::from_rules(&keyword_rules()).err(), Some(LexerError::AmbiguousAccept));
}

fn identifier_rules() -> Vec<Rule> {
    vec![token(
        "ID",
        vec![
            set("", &[('A', 'Z'), ('a', 'z')]),
            star(set("", &[('A', 'Z'), ('a', 'z'), ('0', '9')])),
        ],
    )]
}

#[test]
fn identifier_takes_the_whole_word() {
    let lexer = Lexer::from_rules(&identifier_rules()).unwrap();
    assert_eq!(lexer.tokenize("iffy"), pairs(&[("ID", "iffy")]));
}

#[test]
fn gap_without_whitespace_rule_is_an_error_token() {
    let lexer = Lexer::from_rules(&identifier_rules()).unwrap();
    assert_eq!(lexer.tokenize("if x"), pairs(&[("ID", "if"), ("_ERR", " "), ("ID", "x")]));
}

#[test]
fn whitespace_rule_fills_the_gap() {
    let mut rules = identifier_rules();
    rules.push(token("WS", vec![plus(set(" \t", &[]))]));
    let lexer = Lexer::from_rules(&rules).unwrap();
    assert_eq!(lexer.tokenize("if x"), pairs(&[("ID", "if"), ("WS", " "), ("ID", "x")]));
}

#[test]
fn two_rules_for_one_word_have_no_lexer() {
    let rules = vec![token("A", vec![literal("ab")]), token("B", vec![literal("ab")])];
    let e = Lexer::from_rules(&rules).err().unwrap();
    assert_eq!(e.message().to_lowercase(), "accepting state must accept exactly one rule");
}

#[test]
fn two_rules_for_one_word_in_a_rule_file() {
    let rules = parse_rules("token A = \"ab\";\ntoken B = \"ab\";").unwrap();
    assert_eq!(Lexer::from_rules(&rules).err(), Some(LexerError::AmbiguousAccept));
}

#[test]
fn negated_class_reads_a_string() {
    let rules = vec![token(
        "STR",
        vec![
            literal("\""),
            star(Element::NegatedSet { chars: vec!['"'], ranges: vec![] }),
            literal("\""),
        ],
    )];
    let lexer = Lexer::from_rules(&rules).unwrap();
    assert_eq!(lexer.tokenize("\"abc\""), pairs(&[("STR", "\"abc\"")]));
}

#[test]
fn negated_class_in_a_rule_file() {
    let rules = parse_rules("token STR = \"\\\"\" ([^\"])* \"\\\"\";").unwrap();
    let lexer = Lexer::from_rules(&rules).unwrap();
    assert_eq!(lexer.tokenize("\"abc\"\"\""), pairs(&[("STR", "\"abc\""), ("STR", "\"\"")]));
}

#[test]
fn digits_are_one_number() {
    let rules = vec![token("NUM", vec![plus(set("", &[('0', '9')]))])];
    let lexer = Lexer::from_rules(&rules).unwrap();
    assert_eq!(lexer.tokenize("007"), pairs(&[("NUM", "007")]));
    assert_eq!(lexer.tokenize(""), Vec::new());
    assert_eq!(lexer.longest_match(&Vec::new(), 0), None);
    let end = lexer.next_token(&Vec::new(), 0);
    assert_eq!(end, Token::Eof);
    assert_eq!(lexer.kind(end), "_EOF");
    let input: Vec<char> = "007".chars().collect();
    assert_eq!(lexer.next_token(&input, 3), Token::Eof);
    match lexer.next_token(&input, 0) {
        Token::Lexeme { state, end } => {
            assert_eq!(end, 3);
            assert_eq!(lexer.kind(Token::Lexeme { state, end }), "NUM");
        }
        other => panic!("{:?}", other),
    }
}

#[test]
fn error_token_is_one_character() {
    let rules = vec![token("NUM", vec![plus(set("", &[('0', '9')]))])];
    let lexer = Lexer::from_rules(&rules).unwrap();
    let input: Vec<char> = "x\u{3b1}7".chars().collect();
    assert_eq!(lexer.next_token(&input, 0), Token::Error { end: 1 });
    assert_eq!(lexer.next_token(&input, 1), Token::Error { end: 2 });
    assert_eq!(lexer.kind(Token::Error { end: 2 }), "_ERR");
    assert_eq!(
        lexer.tokenize("x\u{3b1}7"),
        pairs(&[("_ERR", "x"), ("_ERR", "\u{3b1}"), ("NUM", "7")])
    );
}

#[test]
fn lexemes_that_are_longest_come_back() {
    let rules = vec![
        token("LT", vec![literal("<")]),
        token("EQ", vec![literal("=")]),
        token("LE", vec![literal("<=")]),
        token("NUM", vec![plus(set("", &[('0', '9')]))]),
    ];
    let lexer = Lexer::from_rules(&rules).unwrap();
    let lexemes = ["<=", "12", "<", "3", "=", "<"];
    let text: String = lexemes.concat();
    let list = lexer.tokenize(&text);
    let texts: Vec<&str> = list.iter().map(|(_, t)| t.as_str()).collect();
    assert_eq!(texts, lexemes);
    let kinds: Vec<&str> = list.iter().map(|(k, _)| k.as_str()).collect();
    assert_eq!(kinds, ["LE", "NUM", "LT", "NUM", "EQ", "LT"]);
    // "<" and "=" side by side are read as one lexeme
    assert_eq!(lexer.tokenize("<="), pairs(&[("LE", "<=")]));
}

#[test]
fn greek_range_in_the_alphabet() {
    let rules = vec![token("GREEK", vec![plus(set("", &[('\u{3b1}', '\u{3c9}')]))])];
    let lexer = Lexer::from_rules(&rules).unwrap();
    assert_eq!(
        lexer.get_alphabet(),
        &vec![
            (0, 0x3b0),
            (0x3b1, 0x3b1),
            (0x3b2, 0x3c8),
            (0x3c9, 0x3c9),
            (0x3ca, 0x10FFFF),
        ]
    );
    assert_eq!(lexer.tokenize("\u{3bc}"), pairs(&[("GREEK", "\u{3bc}")]));
    assert_eq!(
        lexer.tokenize("\u{3b1}\u{3bc}\u{3c9}x"),
        pairs(&[("GREEK", "\u{3b1}\u{3bc}\u{3c9}"), ("_ERR", "x")])
    );
    let start = lexer.get_connections(0);
    assert_eq!(start.len(), 5);
    assert_eq!(start[1].2, start[2].2);
    assert_eq!(start[2].2, start[3].2);
    assert_ne!(start[0].2, start[2].2);
}

#[test]
fn longer_lexeme_wins() {
    let rules = vec![token("LT", vec![literal("<")]), token("LE", vec![literal("<=")])];
    let lexer = Lexer::from_rules(&rules).unwrap();
    assert_eq!(lexer.tokenize("<="), pairs(&[("LE", "<=")]));
    assert_eq!(lexer.tokenize("<<=<"), pairs(&[("LT", "<"), ("LE", "<="), ("LT", "<")]));
}

#[test]
fn lexer_rewinds_to_the_last_accept() {
    let rules = vec![token("A", vec![literal("a")]), token("ABC", vec![literal("abc")])];
    let lexer = Lexer::from_rules(&rules).unwrap();
    assert_eq!(lexer.tokenize("abx"), pairs(&[("A", "a"), ("_ERR", "b"), ("_ERR", "x")]));
    let input: Vec<char> = "abx".chars().collect();
    let (state, end) = lexer.longest_match(&input, 0).unwrap();
    assert_eq!(end, 1);
    assert_eq!(lexer.accepted(state).map(|s| s.as_str()), Some("A"));
}

#[test]
fn lexemes_concatenate_to_the_text() {
    let mut rules = identifier_rules();
    rules.push(token("NUM", vec![plus(set("", &[('0', '9')]))]));
    let lexer = Lexer::from_rules(&rules).unwrap();
    let text = "abc 123 x9?77";
    let list = lexer.tokenize(text);
    let joined: String = list.iter().map(|(_, t)| t.as_str()).collect();
    assert_eq!(joined, text);
    assert_eq!(
        list,
        pairs(&[
            ("ID", "abc"),
            ("_ERR", " "),
            ("NUM", "123"),
            ("_ERR", " "),
            ("ID", "x9"),
            ("_ERR", "?"),
            ("NUM", "77"),
        ])
    );
}
