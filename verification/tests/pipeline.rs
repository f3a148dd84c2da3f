use parge::alphabet::construct_alphabet;
use parge::alphabet::get_ranges_from_element;
use parge::alphabet::insert_point;
use parge::dfa::epsilon_closure;
use parge::dfa::successor;
use parge::error::LexerError;
use parge::lexer::Lexer;
use parge::nfa::connect_element;
use parge::nfa::construct_nfa;
use parge::nfa::EpsilonConnection::Connection;
use parge::nfa::EpsilonConnection::Epsilon;
use parge::nfa::NFA;
use parge::rules::Element;
use parge::rules::Rule;

fn token(name: &str, elements: Vec<Element>) -> Rule {
    Rule {
        is_terminal: true,
        export: false,
        name: name.to_string(),
        element: Element::Group { subelems: elements },
        constructor_name: None,
        constructor_vars: None,
    }
}

fn literal(text: &str) -> Element {
    Element::Literal { lit: text.to_string() }
}

fn set(chars: &str, ranges: &[(char, char)]) -> Element {
    Element::CharSet { chars: chars.chars().collect(), ranges: ranges.to_vec() }
}

fn boxed(inner: Element) -> Box<Element> {
    Box::new(inner)
}

const MAX: u32 = 0x10FFFF;

fn is_partition(alphabet: &[(u32, u32)]) -> bool {
    if alphabet.is_empty() || alphabet[0].0 != 0 || alphabet[alphabet.len() - 1].1 != MAX {
        return false;
    }
    for i in 0..alphabet.len() {
        if alphabet[i].0 > alphabet[i].1 {
            return false;
        }
        if i + 1 < alphabet.len() && alphabet[i].1 + 1 != alphabet[i + 1].0 {
            return false;
        }
    }
    true
}

#[test]
fn alphabet_of_no_rules_is_one_interval() {
    assert_eq!(construct_alphabet(&Vec::new()), vec![(0, MAX)]);
}

#[test]
fn alphabet_has_points_and_gaps() {
    let rules = vec![token("A", vec![literal("ac"), set("x", &[('e', 'g')])])];
    let alphabet = construct_alphabet(&rules);
    assert_eq!(
        alphabet,
        vec![
            (0, 96),
            (97, 97),
            (98, 98),
            (99, 99),
            (100, 100),
            (101, 101),
            (102, 102),
            (103, 103),
            (104, 119),
            (120, 120),
            (121, MAX),
        ]
    );
    assert!(is_partition(&alphabet));
}

#[test]
fn alphabet_keeps_one_point_gaps() {
    let rules = vec![token("A", vec![set("ac", &[])])];
    assert_eq!(
        construct_alphabet(&rules),
        vec![(0, 96), (97, 97), (98, 98), (99, 99), (100, MAX)]
    );
}

#[test]
fn alphabet_at_the_ends_of_the_range() {
    let rules = vec![token("A", vec![set("\u{0}\u{10FFFF}", &[])])];
    assert_eq!(construct_alphabet(&rules), vec![(0, 0), (1, MAX - 1), (MAX, MAX)]);
    let rules = vec![token("A", vec![set("\u{0}\u{1}", &[])])];
    assert_eq!(construct_alphabet(&rules), vec![(0, 0), (1, 1), (2, MAX)]);
}

#[test]
fn alphabet_ignores_non_terminal_rules() {
    let mut rule = token("A", vec![literal("a")]);
    rule.is_terminal = false;
    assert_eq!(construct_alphabet(&vec![rule]), vec![(0, MAX)]);
}

#[test]
fn alphabet_is_a_partition_with_a_point_for_each_code_point() {
    let rules = vec![
        token("A", vec![Element::NegatedSet { chars: vec!['z', 'a'], ranges: vec![('m', 'k')] }]),
        token(
            "B",
            vec![Element::Optional {
                inner: boxed(Element::Alternatives {
                    subelems: vec![literal("\u{3b1}"), literal("mz")],
                }),
            }],
        ),
    ];
    let alphabet = construct_alphabet(&rules);
    assert!(is_partition(&alphabet));
    for c in ['z', 'a', 'm', 'k', '\u{3b1}'] {
        assert!(alphabet.contains(&(c as u32, c as u32)));
    }
    assert_eq!(alphabet.len(), 11);
}

#[test]
fn points_are_kept_ascending_and_once() {
    let mut points = vec![];
    for p in [5, 1, 9, 5, 0, 9] {
        insert_point(&mut points, p);
    }
    assert_eq!(points, vec![0, 1, 5, 9]);
}

#[test]
fn points_of_an_element() {
    let element = Element::Group {
        subelems: vec![
            literal("ba"),
            Element::OneOrMore { inner: boxed(set("c", &[('x', 'z')])) },
            Element::Rule { var: None, name: "other".to_string() },
        ],
    };
    let mut points = vec![100];
    get_ranges_from_element(&element, &mut points);
    assert_eq!(points, vec![97, 98, 99, 100, 120, 122]);
}

#[test]
fn move_gives_the_state_it_leaves() {
    assert_eq!(Epsilon(3, 4).get_a(), 3);
    assert_eq!(Connection((1, 2), 5, 6).get_a(), 5);
}

fn fragment(element: &Element, alphabet: &Vec<(u32, u32)>) -> (NFA, (usize, usize)) {
    let mut nfa = NFA::new();
    let ends = connect_element(&mut nfa, alphabet, element);
    (nfa, ends)
}

#[test]
fn fragment_of_a_literal_is_a_chain() {
    let alphabet = vec![(0, 96), (97, 97), (98, 98), (99, MAX)];
    let (nfa, ends) = fragment(&literal("ab"), &alphabet);
    assert_eq!(ends, (1, 3));
    assert_eq!(nfa.states.len(), 4);
    assert!(nfa.states.iter().all(|s| s.accepting.is_none()));
    assert_eq!(nfa.connections, vec![Connection((97, 97), 1, 2), Connection((98, 98), 2, 3)]);
    assert_eq!(nfa.entry, 0);
}

#[test]
fn fragment_of_a_class_selects_intervals() {
    let alphabet = vec![(0, 96), (97, 97), (98, 98), (99, 99), (100, 100), (101, MAX)];
    let (nfa, ends) = fragment(&set("d", &[('a', 'b')]), &alphabet);
    assert_eq!(ends, (1, 2));
    assert_eq!(
        nfa.connections,
        vec![Connection((97, 97), 1, 2), Connection((98, 98), 1, 2), Connection((100, 100), 1, 2)]
    );
    let negated = Element::NegatedSet { chars: vec!['d'], ranges: vec![('a', 'b')] };
    let (nfa, ends) = fragment(&negated, &alphabet);
    assert_eq!(ends, (1, 2));
    assert_eq!(
        nfa.connections,
        vec![Connection((0, 96), 1, 2), Connection((99, 99), 1, 2), Connection((101, MAX), 1, 2)]
    );
}

#[test]
fn fragment_of_a_range_written_backwards_is_empty() {
    let alphabet = vec![(0, 96), (97, 97), (98, 98), (99, 99), (100, MAX)];
    let (nfa, _) = fragment(&set("", &[('c', 'a')]), &alphabet);
    assert_eq!(nfa.connections, Vec::new());
}

#[test]
fn fragment_of_a_group_chains_its_members() {
    let alphabet = vec![(0, 96), (97, 97), (98, 98), (99, 99), (100, MAX)];
    let group = Element::Group { subelems: vec![literal("a"), literal("b"), literal("c")] };
    let (nfa, ends) = fragment(&group, &alphabet);
    assert_eq!(ends, (1, 6));
    assert_eq!(
        nfa.connections,
        vec![
            Connection((97, 97), 1, 2),
            Connection((98, 98), 3, 4),
            Epsilon(2, 3),
            Connection((99, 99), 5, 6),
            Epsilon(4, 5),
        ]
    );
}

#[test]
fn fragment_of_an_alternation_has_its_own_ends() {
    let alphabet = vec![(0, 96), (97, 97), (98, 98), (99, MAX)];
    let alternatives = Element::Alternatives { subelems: vec![literal("a"), literal("b")] };
    let (nfa, ends) = fragment(&alternatives, &alphabet);
    assert_eq!(ends, (1, 2));
    assert_eq!(nfa.states.len(), 7);
    assert_eq!(
        nfa.connections,
        vec![
            Connection((97, 97), 3, 4),
            Epsilon(1, 3),
            Epsilon(4, 2),
            Connection((98, 98), 5, 6),
            Epsilon(1, 5),
            Epsilon(6, 2),
        ]
    );
}

#[test]
fn fragments_of_repetitions_add_empty_moves() {
    let alphabet = vec![(0, 96), (97, 97), (98, MAX)];
    let (nfa, ends) = fragment(&Element::OneOrMore { inner: boxed(literal("a")) }, &alphabet);
    assert_eq!(ends, (1, 2));
    assert_eq!(nfa.connections, vec![Connection((97, 97), 1, 2), Epsilon(2, 1)]);
    let (nfa, ends) = fragment(&Element::ZeroOrMore { inner: boxed(literal("a")) }, &alphabet);
    assert_eq!(ends, (1, 2));
    assert_eq!(nfa.states.len(), 5);
    assert_eq!(
        nfa.connections,
        vec![
            Connection((97, 97), 3, 4),
            Epsilon(1, 3),
            Epsilon(4, 2),
            Epsilon(1, 2),
            Epsilon(4, 3),
        ]
    );
    let (nfa, ends) = fragment(&Element::Optional { inner: boxed(literal("a")) }, &alphabet);
    assert_eq!(ends, (1, 2));
    assert_eq!(nfa.states.len(), 5);
    assert_eq!(
        nfa.connections,
        vec![Connection((97, 97), 3, 4), Epsilon(1, 3), Epsilon(4, 2), Epsilon(1, 2)]
    );
}

#[test]
fn automaton_of_two_rules() {
    let rules = vec![token("A", vec![literal("a")]), token("B", vec![literal("b")])];
    let alphabet = construct_alphabet(&rules);
    let nfa = construct_nfa(&rules, &alphabet);
    let labels: Vec<Option<&str>> = nfa.states.iter().map(|s| s.accepting.as_deref()).collect();
    assert_eq!(labels, vec![None, Some("A"), None, None, Some("B"), None, None]);
    assert_eq!(nfa.entry, 0);
    assert_eq!(
        nfa.connections,
        vec![
            Connection((97, 97), 2, 3),
            Epsilon(0, 2),
            Epsilon(3, 1),
            Connection((98, 98), 5, 6),
            Epsilon(0, 5),
            Epsilon(6, 4),
        ]
    );
}

fn marked(flags: &[bool]) -> Vec<usize> {
    (0..flags.len()).filter(|i| flags[*i]).collect()
}

#[test]
fn closure_follows_empty_moves_only() {
    let rules = vec![token("A", vec![literal("a")]), token("B", vec![literal("b")])];
    let alphabet = construct_alphabet(&rules);
    let nfa = construct_nfa(&rules, &alphabet);
    let mut flags = vec![false; nfa.states.len()];
    flags[0] = true;
    epsilon_closure(&nfa, &mut flags);
    assert_eq!(marked(&flags), vec![0, 2, 5]);
    let mut flags = vec![false; nfa.states.len()];
    epsilon_closure(&nfa, &mut flags);
    assert_eq!(marked(&flags), Vec::<usize>::new());
    let mut flags = vec![false; nfa.states.len()];
    flags[3] = true;
    flags[6] = true;
    epsilon_closure(&nfa, &mut flags);
    assert_eq!(marked(&flags), vec![1, 3, 4, 6]);
}

#[test]
fn closure_follows_chains_and_loops() {
    let mut nfa = NFA::new();
    for _ in 0..4 {
        nfa.add_empty();
    }
    nfa.connect_epsilon(3, 4);
    nfa.connect_epsilon(2, 3);
    nfa.connect_epsilon(1, 2);
    nfa.connect_epsilon(4, 1);
    nfa.connect_range(1, 0, (0, MAX));
    let mut flags = vec![false, false, true, false, false];
    epsilon_closure(&nfa, &mut flags);
    assert_eq!(marked(&flags), vec![1, 2, 3, 4]);
}

#[test]
fn successor_moves_and_closes() {
    let rules = vec![token("A", vec![literal("a")]), token("B", vec![literal("b")])];
    let alphabet = construct_alphabet(&rules);
    assert_eq!(alphabet, vec![(0, 96), (97, 97), (98, 98), (99, MAX)]);
    let nfa = construct_nfa(&rules, &alphabet);
    let mut start = vec![false; nfa.states.len()];
    start[0] = true;
    epsilon_closure(&nfa, &mut start);
    assert_eq!(marked(&successor(&nfa, &alphabet, &start, 0)), Vec::<usize>::new());
    assert_eq!(marked(&successor(&nfa, &alphabet, &start, 1)), vec![1, 3]);
    assert_eq!(marked(&successor(&nfa, &alphabet, &start, 2)), vec![4, 6]);
    assert_eq!(marked(&successor(&nfa, &alphabet, &start, 3)), Vec::<usize>::new());
}

#[test]
fn defects_of_elements() {
    let rule_ref = Element::Rule { var: None, name: "x".to_string() };
    assert_eq!(rule_ref.check(), Err(LexerError::NonTerminalReference));
    assert_eq!(Element::Group { subelems: vec![] }.check(), Err(LexerError::EmptyGroup));
    assert_eq!(literal("").check(), Err(LexerError::EmptyLiteral));
    assert_eq!(Element::Alternatives { subelems: vec![] }.check(), Ok(()));
    assert_eq!(set("", &[]).check(), Ok(()));
    let nested = Element::Group {
        subelems: vec![
            literal("a"),
            Element::Optional { inner: boxed(Element::Group { subelems: vec![] }) },
            literal(""),
        ],
    };
    assert_eq!(nested.check(), Err(LexerError::EmptyGroup));
}

#[test]
fn rules_with_defects_have_no_lexer() {
    let reference = token("A", vec![Element::Rule { var: None, name: "B".to_string() }]);
    assert_eq!(Lexer::from_rules(&vec![reference]).err(), Some(LexerError::NonTerminalReference));
    let empty = token("A", vec![]);
    assert_eq!(Lexer::from_rules(&vec![empty]).err(), Some(LexerError::EmptyGroup));
    let blank = token("A", vec![literal("")]);
    assert_eq!(Lexer::from_rules(&vec![blank]).err(), Some(LexerError::EmptyLiteral));
    let first = vec![token("A", vec![literal("")]), token("B", vec![])];
    assert_eq!(Lexer::from_rules(&first).err(), Some(LexerError::EmptyLiteral));
    let reserved = vec![token("A", vec![literal("a")]), token("_TRAP", vec![])];
    assert_eq!(Lexer::from_rules(&reserved).err(), Some(LexerError::ReservedName));
    let mut unused = token("_TRAP", vec![literal("a")]);
    unused.is_terminal = false;
    assert!(Lexer::from_rules(&vec![unused]).is_ok());
}

fn reads(nfa: &NFA, from: usize, to: usize, word: &[u32]) -> bool {
    let mut flags = vec![false; nfa.states.len()];
    flags[from] = true;
    epsilon_closure(nfa, &mut flags);
    for c in word {
        let mut next = vec![false; nfa.states.len()];
        for m in &nfa.connections {
            if let Connection(range, a, b) = m {
                if flags[*a] && range.0 <= *c && *c <= range.1 {
                    next[*b] = true;
                }
            }
        }
        epsilon_closure(nfa, &mut next);
        flags = next;
    }
    flags[to]
}

#[test]
fn fragment_of_an_option_reads_what_the_option_matches() {
    let alphabet = vec![(0, 97), (98, 98), (99, 99), (100, MAX)];
    let element = Element::Optional {
        inner: boxed(Element::Group {
            subelems: vec![literal("b"), Element::OneOrMore { inner: boxed(set("c", &[])) }],
        }),
    };
    let (nfa, (entry, exit)) = fragment(&element, &alphabet);
    assert!(reads(&nfa, entry, exit, &[]));
    assert!(reads(&nfa, entry, exit, &[98, 99]));
    assert!(reads(&nfa, entry, exit, &[98, 99, 99, 99]));
    assert!(!reads(&nfa, entry, exit, &[99]));
    assert!(!reads(&nfa, entry, exit, &[98]));
    assert!(!reads(&nfa, entry, exit, &[98, 99, 98, 99]));
    assert!(!reads(&nfa, entry, exit, &[99, 99]));
}

#[test]
fn fragment_of_a_star_reads_what_the_star_matches() {
    let alphabet = vec![(0, 96), (97, 97), (98, 98), (99, MAX)];
    let element = Element::ZeroOrMore {
        inner: boxed(Element::Group {
            subelems: vec![Element::OneOrMore { inner: boxed(literal("a")) }, literal("b")],
        }),
    };
    let (nfa, (entry, exit)) = fragment(&element, &alphabet);
    assert!(reads(&nfa, entry, exit, &[]));
    assert!(reads(&nfa, entry, exit, &[97, 98]));
    assert!(reads(&nfa, entry, exit, &[97, 97, 98, 97, 98]));
    assert!(!reads(&nfa, entry, exit, &[97]));
    assert!(!reads(&nfa, entry, exit, &[98]));
    assert!(!reads(&nfa, entry, exit, &[97, 98, 97]));
}

#[test]
fn defects_of_non_terminal_rules_do_not_count() {
    let mut rule = token("A", vec![Element::Rule { var: None, name: "B".to_string() }]);
    rule.is_terminal = false;
    assert!(Lexer::from_rules(&vec![rule, token("B", vec![literal("b")])]).is_ok());
}

#[test]
fn messages_of_errors() {
    assert_eq!(
        LexerError::NonTerminalReference.message(),
        "Non-terminal reference inside a terminal rule"
    );
    assert_eq!(LexerError::EmptyGroup.message(), "Group without sub-elements");
    assert_eq!(LexerError::EmptyLiteral.message(), "Literal without characters");
    assert_eq!(
        LexerError::AmbiguousAccept.message(),
        "Accepting state must accept exactly one rule"
    );
    assert_eq!(LexerError::ReservedName.message(), "Rule name is reserved");
}
