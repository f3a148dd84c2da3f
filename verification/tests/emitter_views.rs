use parge::lexer::Lexer;
use parge::rules::Element;
use parge::rules::Rule;

fn token(name: &str, elements: Vec<Element>) -> Rule {
    Rule {
        is_terminal: true,
        export: false,
        name: name.to_string(),
        element: Element::Group { subelems: elements },
        constructor_name: None,
        constructor_vars: None,
    }
}

fn literal(text: &str) -> Element {
    Element::Literal { lit: text.to_string() }
}

#[test]
fn token_names_are_sorted_and_distinct() {
    let rules = vec![
        token("b", vec![literal("x")]),
        token("B", vec![literal("y")]),
        token("ab", vec![literal("z")]),
        token("a", vec![literal("zz")]),
    ];
    let lexer = Lexer::from_rules(&rules).unwrap();
    assert_eq!(lexer.token_names(), vec!["B", "_TRAP", "a", "ab", "b"]);
}

#[test]
fn targets_gather_moves_by_state() {
    let rules = vec![token("AB", vec![literal("ab")])];
    let lexer = Lexer::from_rules(&rules).unwrap();
    assert_eq!(lexer.get_alphabet(), &vec![(0, 96), (97, 97), (98, 98), (99, 0x10FFFF)]);
    let trap = lexer.get_trap();
    assert_eq!(lexer.get_states()[trap].map(|s| s.as_str()), Some("_TRAP"));
    let start = lexer.get_targets(0);
    assert_eq!(start.len(), 2);
    let after_a = lexer.get_connections(0)[1].2;
    for (target, places) in &start {
        if *target == trap {
            assert_eq!(places, &vec![0, 2, 3]);
        } else {
            assert_eq!(*target, after_a);
            assert_eq!(places, &vec![1]);
        }
    }
    assert!(start[0].0 < start[1].0);
    assert_eq!(lexer.get_targets(trap), vec![(trap, vec![0, 1, 2, 3])]);
    assert_eq!(lexer.get_targets(lexer.get_states().len()), Vec::new());
}
