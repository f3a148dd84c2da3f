use parge::alphabet::collect_points;
use parge::codegen::insert_name;
use parge::codegen::stands_before;
use parge::dfa::accepting_state;
use parge::dfa::find_subset;
use parge::dfa::powerset_construction;
use parge::dfa::Connection;
use parge::dfa::DFA;
use parge::error::LexerError;
use parge::flags::is_empty_flags;
use parge::flags::no_states;
use parge::flags::same_flags;
use parge::nfa::class_has;
use parge::nfa::State;
use parge::nfa::NFA;
use parge::parser::parse_alternatives;
use parge::parser::parse_alternatives_no_rule;
use parge::parser::parse_constructor;
use parge::parser::parse_element;
use parge::parser::parse_element_no_rule;
use parge::parser::parse_element_rule;
use parge::parser::parse_group;
use parge::parser::parse_group_no_rule;
use parge::parser::parse_literal;
use parge::parser::parse_name;
use parge::parser::parse_nonterminal;
use parge::parser::parse_repetition;
use parge::parser::parse_repetition_no_rule;
use parge::parser::parse_rule;
use parge::parser::parse_set;
use parge::parser::parse_token;
use parge::rules::check_all;
use parge::rules::Element;
use parge::rules::Rule;
use parge::text::text_of;
use parge::text::to_chars;

fn chars(text: &str) -> Vec<char> {
    text.chars().collect()
}

fn literal(text: &str) -> Element {
    Element::Literal { lit: text.to_string() }
}

fn reference(var: Option<&str>, name: &str) -> Element {
    Element::Rule { var: var.map(|v| v.to_string()), name: name.to_string() }
}

#[test]
fn characters_of_a_text() {
    assert_eq!(to_chars("a\u{3b1}\u{10FFFF}"), vec!['a', '\u{3b1}', '\u{10FFFF}']);
    assert_eq!(to_chars(""), Vec::<char>::new());
    assert_eq!(text_of(&chars("abcde"), 1, 4), "bcd");
    assert_eq!(text_of(&chars("abcde"), 2, 2), "");
    assert_eq!(text_of(&chars("a\u{3b1}c"), 0, 3), "a\u{3b1}c");
}

#[test]
fn flags_mark_states() {
    assert_eq!(no_states(3), vec![false, false, false]);
    assert_eq!(no_states(0), Vec::<bool>::new());
    assert!(same_flags(&vec![true, false], &vec![true, false]));
    assert!(!same_flags(&vec![true, false], &vec![true, true]));
    assert!(!same_flags(&vec![true], &vec![true, false]));
    assert!(is_empty_flags(&vec![false, false]));
    assert!(is_empty_flags(&vec![]));
    assert!(!is_empty_flags(&vec![false, true]));
}

#[test]
fn first_equal_set_is_found() {
    let sets = vec![vec![true, false], vec![false, true], vec![true, false]];
    assert_eq!(find_subset(&sets, &vec![true, false]), Some(0));
    assert_eq!(find_subset(&sets, &vec![false, true]), Some(1));
    assert_eq!(find_subset(&sets, &vec![true, true]), None);
    assert_eq!(find_subset(&Vec::new(), &vec![]), None);
}

#[test]
fn class_holds_characters_and_ranges() {
    let chars = vec!['x', '\u{3b1}'];
    let ranges = vec![('a', 'c'), ('9', '0')];
    assert!(class_has(&chars, &ranges, 'x' as u32));
    assert!(class_has(&chars, &ranges, 0x3b1));
    assert!(class_has(&chars, &ranges, 'a' as u32));
    assert!(class_has(&chars, &ranges, 'b' as u32));
    assert!(class_has(&chars, &ranges, 'c' as u32));
    assert!(!class_has(&chars, &ranges, 'd' as u32));
    assert!(!class_has(&chars, &ranges, '5' as u32));
    assert!(!class_has(&Vec::new(), &Vec::new(), 0));
}

#[test]
fn state_for_a_set_of_states() {
    let mut nfa = NFA::new();
    nfa.add(State { accepting: Some("A".to_string()) });
    nfa.add_empty();
    nfa.add(State { accepting: Some("B".to_string()) });
    nfa.add(State { accepting: Some("A".to_string()) });
    let label = |set: &[bool]| accepting_state(&nfa, &set.to_vec()).map(|s| s.accepting);
    assert_eq!(label(&[false; 5]), Ok(Some("_TRAP".to_string())));
    assert_eq!(label(&[true, false, true, false, false]), Ok(None));
    assert_eq!(label(&[true, true, true, false, false]), Ok(Some("A".to_string())));
    assert_eq!(label(&[false, true, false, false, true]), Ok(Some("A".to_string())));
    assert_eq!(label(&[false, false, false, true, false]), Ok(Some("B".to_string())));
    assert_eq!(label(&[false, true, false, true, false]), Err(LexerError::AmbiguousAccept));
    assert_eq!(label(&[true; 5]), Err(LexerError::AmbiguousAccept));
}

#[test]
fn moves_of_one_state_are_built() {
    let mut nfa = NFA::new();
    let a = nfa.add_empty();
    let b = nfa.add(State { accepting: Some("X".to_string()) });
    nfa.connect_epsilon(0, a);
    nfa.connect_range(a, b, (5, 9));
    let alphabet = vec![(0, 4), (5, 9), (10, 0x10FFFF)];
    let mut sets = vec![vec![true, true, false]];
    let mut moves = Vec::new();
    powerset_construction(&nfa, 0, &mut sets, &mut moves, &alphabet);
    assert_eq!(
        sets,
        vec![vec![true, true, false], vec![false, false, false], vec![false, false, true]]
    );
    assert_eq!(
        moves,
        vec![
            Connection { range: (0, 4), start: 1, end: 1 },
            Connection { range: (5, 9), start: 1, end: 1 },
            Connection { range: (10, 0x10FFFF), start: 1, end: 1 },
            Connection { range: (0, 4), start: 0, end: 1 },
            Connection { range: (0, 4), start: 2, end: 1 },
            Connection { range: (5, 9), start: 2, end: 1 },
            Connection { range: (10, 0x10FFFF), start: 2, end: 1 },
            Connection { range: (5, 9), start: 0, end: 2 },
            Connection { range: (10, 0x10FFFF), start: 0, end: 1 },
        ]
    );
}

#[test]
fn deterministic_automaton_is_put_together() {
    let mut dfa = DFA::new();
    assert_eq!(dfa.add_empty(), 0);
    assert_eq!(dfa.add(State { accepting: Some("A".to_string()) }), 1);
    dfa.connect_range(0, 1, (3, 4));
    assert_eq!(dfa.states.len(), 2);
    assert_eq!(dfa.states[0].accepting, None);
    assert_eq!(dfa.connections, vec![Connection { range: (3, 4), start: 0, end: 1 }]);
}

#[test]
fn first_defect_of_a_list() {
    assert_eq!(check_all(&vec![]), Ok(()));
    assert_eq!(check_all(&vec![literal("a"), literal("b")]), Ok(()));
    assert_eq!(
        check_all(&vec![literal("a"), literal(""), reference(None, "x")]),
        Err(LexerError::EmptyLiteral)
    );
    assert_eq!(
        check_all(&vec![reference(None, "x"), literal("")]),
        Err(LexerError::NonTerminalReference)
    );
}

#[test]
fn points_of_terminal_rules() {
    let rule = |name: &str, terminal: bool, element: Element| Rule {
        is_terminal: terminal,
        export: false,
        name: name.to_string(),
        element,
        constructor_name: None,
        constructor_vars: None,
    };
    let rules = vec![
        rule("A", true, literal("cab")),
        rule("B", false, literal("z")),
        rule("C", true, Element::CharSet { chars: vec!['a'], ranges: vec![('x', 'y')] }),
    ];
    assert_eq!(collect_points(&rules), vec![97, 98, 99, 120, 121]);
}

#[test]
fn order_of_texts() {
    let before = |a: &str, b: &str| stands_before(&chars(a), &chars(b));
    assert!(before("", "a"));
    assert!(!before("", ""));
    assert!(!before("a", ""));
    assert!(before("a", "b"));
    assert!(!before("b", "a"));
    assert!(before("ab", "abc"));
    assert!(!before("abc", "ab"));
    assert!(!before("abc", "abc"));
    assert!(before("Z", "a"));
    assert!(before("a", "\u{3b1}"));
    assert!(before("abd", "abe"));
}

#[test]
fn names_are_kept_in_order() {
    let mut names: Vec<String> = Vec::new();
    for name in ["m", "b", "z", "m", "ma", "", "b"] {
        insert_name(&mut names, &name.to_string());
    }
    assert_eq!(names, vec!["", "b", "m", "ma", "z"]);
}

#[test]
fn name_at_a_position() {
    let src = chars("  ab_9-x");
    assert_eq!(parse_name(&src, 2), Some(("ab_9".to_string(), 6)));
    assert_eq!(parse_name(&src, 3), Some(("b_9".to_string(), 6)));
    assert_eq!(parse_name(&src, 4), None);
    assert_eq!(parse_name(&src, 5), None);
    assert_eq!(parse_name(&src, 0), None);
    assert_eq!(parse_name(&src, 7), Some(("x".to_string(), 8)));
    assert_eq!(parse_name(&src, 8), None);
}

#[test]
fn class_at_a_position() {
    let src = chars("x[^a-c\\]]y");
    assert_eq!(
        parse_set(&src, 1),
        Some((Element::NegatedSet { chars: vec![']'], ranges: vec![('a', 'c')] }, 9))
    );
    assert_eq!(parse_set(&src, 0), None);
    assert_eq!(parse_set(&chars("[abc"), 0), None);
    assert_eq!(parse_set(&chars("[a-"), 0), None);
    assert_eq!(
        parse_set(&chars("[^]"), 0),
        Some((Element::NegatedSet { chars: vec![], ranges: vec![] }, 3))
    );
    assert_eq!(
        parse_set(&chars("[\\n]"), 0),
        Some((Element::CharSet { chars: vec!['\\', 'n'], ranges: vec![] }, 4))
    );
    assert_eq!(
        parse_set(&chars("[a-c-e]"), 0),
        Some((Element::CharSet { chars: vec!['-', 'e'], ranges: vec![('a', 'c')] }, 7))
    );
}

#[test]
fn literal_at_a_position() {
    assert_eq!(parse_literal(&chars("\"ab\" "), 0), Some((literal("ab"), 4)));
    assert_eq!(parse_literal(&chars("x\"a\""), 1), Some((literal("a"), 4)));
    assert_eq!(parse_literal(&chars("\"ab"), 0), None);
    assert_eq!(parse_literal(&chars("\""), 0), None);
    assert_eq!(parse_literal(&chars("\"a\\"), 0), None);
    assert_eq!(parse_literal(&chars("ab\""), 0), None);
    assert_eq!(parse_literal(&chars("\"\\t\""), 0), Some((literal("\t"), 4)));
}

#[test]
fn reference_at_a_position() {
    assert_eq!(parse_element_rule(&chars("a:b c"), 0), Some((reference(Some("a"), "b"), 3)));
    assert_eq!(parse_element_rule(&chars("a b"), 0), Some((reference(None, "a"), 1)));
    assert_eq!(parse_element_rule(&chars("a:"), 0), None);
    assert_eq!(parse_element_rule(&chars("a:1"), 0), None);
    assert_eq!(parse_element_rule(&chars(":a"), 0), None);
}

#[test]
fn elements_with_and_without_references() {
    let src = chars("(a \"b\")");
    let group = Element::Group { subelems: vec![reference(None, "a"), literal("b")] };
    assert_eq!(parse_element(&src, 0), Some((group, 7)));
    assert_eq!(parse_element_no_rule(&src, 0), None);
    assert_eq!(parse_group_no_rule(&src, 0), None);
    let src = chars("( a\t| \"b\" )?");
    let alternation = Element::Alternatives { subelems: vec![reference(None, "a"), literal("b")] };
    assert_eq!(parse_alternatives(&src, 0), Some((alternation, 11)));
    assert_eq!(parse_alternatives_no_rule(&src, 0), None);
    assert_eq!(parse_group(&src, 0), None);
    assert_eq!(parse_repetition(&src, 0), None);
    let src = chars("(\"a\")*x");
    let repeated = Element::ZeroOrMore { inner: Box::new(literal("a")) };
    assert_eq!(parse_repetition_no_rule(&src, 0), Some((repeated, 6)));
    assert_eq!(parse_group_no_rule(&src, 0), Some((literal("a"), 5)));
    assert_eq!(parse_alternatives_no_rule(&src, 0), Some((literal("a"), 5)));
    assert_eq!(parse_element_no_rule(&chars(""), 0), None);
    assert_eq!(parse_element_no_rule(&chars("()"), 0), None);
    assert_eq!(parse_element_no_rule(&chars("(\"a\"|)"), 0), None);
}

#[test]
fn nested_groups() {
    let src = chars("((([ab]) \"c\")+ (\"d\" | (\"e\")?))");
    let inner = Element::OneOrMore {
        inner: Box::new(Element::Group {
            subelems: vec![Element::CharSet { chars: vec!['a', 'b'], ranges: vec![] }, literal("c")],
        }),
    };
    let choice = Element::Alternatives {
        subelems: vec![literal("d"), Element::Optional { inner: Box::new(literal("e")) }],
    };
    assert_eq!(
        parse_element_no_rule(&src, 0),
        Some((Element::Group { subelems: vec![inner, choice] }, src.len()))
    );
}

#[test]
fn constructor_at_a_position() {
    assert_eq!(
        parse_constructor(&chars("Add(l , r,x)"), 0),
        Some((("Add".to_string(), vec!["l".to_string(), "r".to_string(), "x".to_string()]), 12))
    );
    assert_eq!(parse_constructor(&chars("Unit()"), 0), Some((("Unit".to_string(), vec![]), 6)));
    assert_eq!(parse_constructor(&chars("Add(l,)"), 0), None);
    assert_eq!(parse_constructor(&chars("Add( l)"), 0), None);
    assert_eq!(parse_constructor(&chars("Add"), 0), None);
    assert_eq!(parse_constructor(&chars("(l)"), 0), None);
}

#[test]
fn rules_at_a_position() {
    let src = chars("token  A=\"a\";rest");
    let (rule, end) = parse_token(&src, 0).unwrap();
    assert_eq!((rule.name.as_str(), rule.is_terminal, rule.export, end), ("A", true, false, 13));
    assert_eq!(parse_nonterminal(&src, 0), None);
    assert_eq!(parse_rule(&src, 0).map(|r| r.1), Some(13));
    assert_eq!(parse_token(&chars("tokenA = \"a\";"), 0), None);
    assert_eq!(parse_token(&chars("token A \"a\";"), 0), None);
    let src = chars("nonterm s = a  b -> S( a );");
    assert_eq!(parse_nonterminal(&src, 0), None);
    let src = chars("nonterm s = a  b -> S(a);");
    let (rule, end) = parse_nonterminal(&src, 0).unwrap();
    assert_eq!(end, src.len());
    assert!(!rule.is_terminal);
    assert_eq!(rule.constructor_vars, Some(vec!["a".to_string()]));
    assert_eq!(parse_token(&src, 0), None);
    let src = chars("export  token A = \"a\";");
    assert_eq!(parse_rule(&src, 0), None);
}
