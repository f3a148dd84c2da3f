use parge::error::ParseError;
use parge::parser::parse_rules;
use parge::rules::Element;
use parge::rules::Rule;

fn token(name: &str, elements: Vec<Element>) -> Rule {
    Rule {
        is_terminal: true,
        export: false,
        name: name.to_string(),
        element: Element::Group { subelems: elements },
        constructor_name: None,
        constructor_vars: None,
    }
}

fn literal(text: &str) -> Element {
    Element::Literal { lit: text.to_string() }
}

fn set(chars: &str, ranges: &[(char, char)]) -> Element {
    Element::CharSet { chars: chars.chars().collect(), ranges: ranges.to_vec() }
}

#[test]
fn one_token_with_a_literal() {
    let rules = parse_rules("token IF = \"if\";").unwrap();
    assert_eq!(rules, vec![token("IF", vec![literal("if")])]);
}

#[test]
fn trailing_line_feed_is_read() {
    let rules = parse_rules("token IF = \"if\";\n").unwrap();
    assert_eq!(rules.len(), 1);
}

#[test]
fn two_tokens_on_two_lines() {
    let rules = parse_rules("token IF = \"if\";\ntoken ID = [A-Za-z] ([A-Za-z0-9])*;").unwrap();
    assert_eq!(
        rules,
        vec![
            token("IF", vec![literal("if")]),
            token(
                "ID",
                vec![
                    set("", &[('A', 'Z'), ('a', 'z')]),
                    Element::ZeroOrMore {
                        inner: Box::new(set("", &[('A', 'Z'), ('a', 'z'), ('0', '9')])),
                    },
                ]
            ),
        ]
    );
}

#[test]
fn class_escapes_and_ranges() {
    let rules = parse_rules("token X = [\\]\\\\\\-a-c_];").unwrap();
    assert_eq!(rules, vec![token("X", vec![set("]\\-_", &[('a', 'c')])])]);
}

#[test]
fn class_with_hyphen_before_the_bracket() {
    let rules = parse_rules("token X = [a-];").unwrap();
    assert_eq!(rules, vec![token("X", vec![set("a-", &[])])]);
}

#[test]
fn negated_class() {
    let rules = parse_rules("token X = [^\"];").unwrap();
    assert_eq!(
        rules,
        vec![token("X", vec![Element::NegatedSet { chars: vec!['"'], ranges: vec![] }])]
    );
}

#[test]
fn empty_class_is_read() {
    let rules = parse_rules("token X = [];").unwrap();
    assert_eq!(rules, vec![token("X", vec![set("", &[])])]);
}

#[test]
fn literal_with_escapes() {
    let rules = parse_rules("token S = \"\\\"\" \"a\\\\b\\n\\t\";").unwrap();
    assert_eq!(rules, vec![token("S", vec![literal("\""), literal("a\\b\n\t")])]);
}

#[test]
fn unknown_escape_is_an_error() {
    assert_eq!(parse_rules("token S = \"a\\b\";"), Err(ParseError::Unparsed { at: 0 }));
}

#[test]
fn empty_literal_is_an_error() {
    assert_eq!(parse_rules("token S = \"\";"), Err(ParseError::Unparsed { at: 0 }));
}

#[test]
fn group_of_one_is_the_element() {
    let rules = parse_rules("token G = ( \"a\" );").unwrap();
    assert_eq!(rules, vec![token("G", vec![literal("a")])]);
}

#[test]
fn group_of_two_and_postfix() {
    let rules = parse_rules("token G = (\"a\" \"b\")+ (\"c\")? (\"d\")*;").unwrap();
    assert_eq!(
        rules,
        vec![token(
            "G",
            vec![
                Element::OneOrMore {
                    inner: Box::new(Element::Group { subelems: vec![literal("a"), literal("b")] })
                },
                Element::Optional { inner: Box::new(literal("c")) },
                Element::ZeroOrMore { inner: Box::new(literal("d")) },
            ]
        )]
    );
}

#[test]
fn alternation() {
    let rules = parse_rules("token A = (\"a\" | \"b\"|\"c\");").unwrap();
    assert_eq!(
        rules,
        vec![token(
            "A",
            vec![Element::Alternatives { subelems: vec![literal("a"), literal("b"), literal("c")] }]
        )]
    );
}

#[test]
fn postfix_on_an_alternation_needs_a_group() {
    assert_eq!(parse_rules("token A = (\"a\" | \"b\")+;"), Err(ParseError::Unparsed { at: 0 }));
    let rules = parse_rules("token A = ((\"a\" | \"b\"))+;").unwrap();
    assert_eq!(
        rules,
        vec![token(
            "A",
            vec![Element::OneOrMore {
                inner: Box::new(Element::Alternatives { subelems: vec![literal("a"), literal("b")] })
            }]
        )]
    );
}

#[test]
fn postfix_on_a_class_needs_a_group() {
    assert_eq!(parse_rules("token NUM = [0-9]+;"), Err(ParseError::Unparsed { at: 0 }));
    assert!(parse_rules("token NUM = ([0-9])+;").is_ok());
}

#[test]
fn token_may_not_refer_to_a_rule() {
    assert_eq!(parse_rules("token A = B;"), Err(ParseError::Unparsed { at: 0 }));
}

#[test]
fn nonterminal_with_constructor() {
    let rules = parse_rules("export nonterm expr = l:term \"+\" r:term other -> Add(l, r);").unwrap();
    assert_eq!(
        rules,
        vec![Rule {
            is_terminal: false,
            export: true,
            name: "expr".to_string(),
            element: Element::Group {
                subelems: vec![
                    Element::Rule { var: Some("l".to_string()), name: "term".to_string() },
                    literal("+"),
                    Element::Rule { var: Some("r".to_string()), name: "term".to_string() },
                    Element::Rule { var: None, name: "other".to_string() },
                ]
            },
            constructor_name: Some("Add".to_string()),
            constructor_vars: Some(vec!["l".to_string(), "r".to_string()]),
        }]
    );
}

#[test]
fn nonterminal_with_empty_constructor() {
    let rules = parse_rules("nonterm unit = \"()\"->Unit();").unwrap();
    assert_eq!(rules[0].constructor_name, Some("Unit".to_string()));
    assert_eq!(rules[0].constructor_vars, Some(Vec::new()));
    assert!(!rules[0].export);
}

#[test]
fn exported_token() {
    let rules = parse_rules("export token A = \"a\";").unwrap();
    assert!(rules[0].export);
    assert!(rules[0].is_terminal);
}

#[test]
fn names_are_ascii() {
    assert_eq!(parse_rules("token \u{e4}b = \"a\";"), Err(ParseError::Unparsed { at: 0 }));
    assert_eq!(parse_rules("token _a = \"a\";"), Err(ParseError::Unparsed { at: 0 }));
    let rules = parse_rules("token aB_9 = \"a\";").unwrap();
    assert_eq!(rules[0].name, "aB_9");
}

#[test]
fn trailing_garbage_is_an_error() {
    assert_eq!(parse_rules("token A = \"a\";\nrubbish"), Err(ParseError::Unparsed { at: 15 }));
    assert_eq!(parse_rules("token A = \"a\"; "), Err(ParseError::Unparsed { at: 14 }));
    assert_eq!(parse_rules("token A = \"a\";\n\n"), Err(ParseError::Unparsed { at: 15 }));
}

#[test]
fn space_before_the_semicolon_is_an_error() {
    assert_eq!(parse_rules("token A = \"a\" ;"), Err(ParseError::Unparsed { at: 0 }));
}

#[test]
fn empty_text_is_an_error() {
    assert_eq!(parse_rules(""), Err(ParseError::Unparsed { at: 0 }));
}

#[test]
fn duplicate_names_are_an_error() {
    let e = parse_rules("token A = \"a\";\ntoken A = \"b\";").unwrap_err();
    assert_eq!(e, ParseError::DuplicateName);
    assert_eq!(e.message(), "Rule names aren't unique");
}

#[test]
fn unparsed_position_counts_characters() {
    assert_eq!(
        parse_rules("token A = \"\u{3b1}\u{3c9}\";\nx"),
        Err(ParseError::Unparsed { at: 16 })
    );
}

#[test]
fn greek_range_in_a_class() {
    let rules = parse_rules("token G = [\u{3b1}-\u{3c9}];").unwrap();
    assert_eq!(rules, vec![token("G", vec![set("", &[('\u{3b1}', '\u{3c9}')])])]);
}
