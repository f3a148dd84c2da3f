use parge::error::LexerError;
use parge::lexer::Lexer;
use parge::rules::Element;
use parge::rules::Rule;

fn token(name: &str, elements: Vec<Element>) -> Rule {
    Rule {
        is_terminal: true,
        export: false,
        name: name.to_string(),
        element: Element::Group { subelems: elements },
        constructor_name: None,
        constructor_vars: None,
    }
}

fn literal(text: &str) -> Element {
    Element::Literal { lit: text.to_string() }
}

#[test]
fn two_rules_for_one_word_are_ambiguous() {
    let rules = vec![token("A", vec![literal("ab")]), token("B", vec![literal("ab")])];
    match Lexer::from_rules(&rules) {
        Err(e) => {
            assert_eq!(e, LexerError::AmbiguousAccept);
            assert_eq!(e.message(), "Accepting state must accept exactly one rule");
        }
        Ok(_) => panic!("two rules match ab"),
    }
}

#[test]
fn no_rules_give_start_and_trap() {
    let lexer = Lexer::from_rules(&Vec::new()).unwrap();
    let states = lexer.get_states();
    assert_eq!(states.len(), 2);
    assert_eq!(states[0], None);
    assert_eq!(states[1].map(|s| s.as_str()), Some("_TRAP"));
    assert_eq!(lexer.get_alphabet(), &vec![(0u32, 0x10FFFFu32)]);
    assert_eq!(lexer.get_connections(0), vec![(0, 0x10FFFF, 1)]);
    assert_eq!(lexer.get_connections(1), vec![(0, 0x10FFFF, 1)]);
}
