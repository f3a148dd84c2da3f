use parge::alphabet::construct_alphabet;
use parge::dfa::epsilon_closure;
use parge::dfa::successor;
use parge::lexer::Lexer;
use parge::nfa::construct_nfa;
use parge::nfa::NFA;
use parge::rules::Element;
use parge::rules::Rule;

fn token(name: &str, elements: Vec<Element>) -> Rule {
    Rule {
        is_terminal: true,
        export: false,
        name: name.to_string(),
        element: Element::Group { subelems: elements },
        constructor_name: None,
        constructor_vars: None,
    }
}

fn literal(text: &str) -> Element {
    Element::Literal { lit: text.to_string() }
}

fn set(chars: &str, ranges: &[(char, char)]) -> Element {
    Element::CharSet { chars: chars.chars().collect(), ranges: ranges.to_vec() }
}

fn sample_rules() -> Vec<Rule> {
    vec![
        token("LT", vec![literal("<")]),
        token("LE", vec![literal("<=")]),
        token(
            "ID",
            vec![
                set("_", &[('a', 'z')]),
                Element::ZeroOrMore { inner: Box::new(set("_", &[('a', 'z'), ('0', '9')])) },
            ],
        ),
        token(
            "NUM",
            vec![
                Element::OneOrMore { inner: Box::new(set("", &[('0', '9')])) },
                Element::Optional {
                    inner: Box::new(Element::Group {
                        subelems: vec![
                            literal("."),
                            Element::OneOrMore { inner: Box::new(set("", &[('0', '9')])) },
                        ],
                    }),
                },
            ],
        ),
        token(
            "STR",
            vec![
                literal("\""),
                Element::ZeroOrMore {
                    inner: Box::new(Element::NegatedSet { chars: vec!['"'], ranges: vec![] }),
                },
                literal("\""),
            ],
        ),
    ]
}

fn interval_of(alphabet: &[(u32, u32)], c: u32) -> usize {
    alphabet.iter().position(|r| r.0 <= c && c <= r.1).unwrap()
}

fn names_after(nfa: &NFA, alphabet: &Vec<(u32, u32)>, word: &str) -> Vec<String> {
    let mut flags = vec![false; nfa.states.len()];
    flags[nfa.entry] = true;
    epsilon_closure(nfa, &mut flags);
    for c in word.chars() {
        flags = successor(nfa, alphabet, &flags, interval_of(alphabet, c as u32));
    }
    let mut names: Vec<String> = Vec::new();
    for q in 0..flags.len() {
        if flags[q] {
            if let Some(name) = &nfa.states[q].accepting {
                if !names.contains(name) {
                    names.push(name.clone());
                }
            }
        }
    }
    names
}

fn name_after(lexer: &Lexer, word: &str) -> Option<String> {
    let mut state = 0;
    for c in word.chars() {
        state = lexer.step(state, c as u32);
    }
    lexer.accepted(state).cloned()
}

const WORDS: [&str; 24] = [
    "", "<", "<=", "<<", "=", "a", "_", "a1_", "1a", "0", "007", "1.", "1.5", "1.5.", ".5", "\"",
    "\"\"", "\"a<b\"", "\"a\"b", "x\"", "\u{3b1}", "a\u{3b1}", "zz9", "<=a",
];

#[test]
fn both_automata_accept_the_same_words() {
    let rules = sample_rules();
    let alphabet = construct_alphabet(&rules);
    let nfa = construct_nfa(&rules, &alphabet);
    let lexer = Lexer::from_rules(&rules).unwrap();
    for word in WORDS {
        let names = names_after(&nfa, &alphabet, word);
        assert!(names.len() <= 1, "{:?}", word);
        assert_eq!(name_after(&lexer, word), names.first().cloned(), "{:?}", word);
    }
    assert_eq!(name_after(&lexer, "<="), Some("LE".to_string()));
    assert_eq!(name_after(&lexer, "1.5"), Some("NUM".to_string()));
    assert_eq!(name_after(&lexer, "1."), None);
}

#[test]
fn every_state_has_one_move_for_each_interval() {
    let lexer = Lexer::from_rules(&sample_rules()).unwrap();
    let alphabet = lexer.get_alphabet().clone();
    let states = lexer.get_states().len();
    let mut total = 0;
    for s in 0..states {
        let moves = lexer.get_connections(s);
        assert_eq!(moves.len(), alphabet.len());
        for k in 0..moves.len() {
            assert_eq!((moves[k].0, moves[k].1), alphabet[k]);
            assert!(moves[k].2 < states);
            if k > 0 {
                assert!(moves[k - 1].1 < moves[k].0);
            }
        }
        total += moves.len();
    }
    assert_eq!(lexer.transitions().len(), total);
}

#[test]
fn one_state_is_the_trap_and_it_holds() {
    let lexer = Lexer::from_rules(&sample_rules()).unwrap();
    let states = lexer.get_states();
    let traps: Vec<usize> =
        (0..states.len()).filter(|s| states[*s].map(|n| n.as_str()) == Some("_TRAP")).collect();
    assert_eq!(traps.len(), 1);
    assert_eq!(lexer.get_trap(), traps[0]);
    assert!(lexer.get_connections(traps[0]).iter().all(|m| m.2 == traps[0]));
    assert_eq!(lexer.accepted(traps[0]), None);
    assert_eq!(lexer.step(traps[0], 'a' as u32), traps[0]);
}

#[test]
fn rules_that_match_everything_get_a_trap_of_their_own() {
    let all = Element::Alternatives {
        subelems: vec![
            Element::NegatedSet { chars: vec!['a'], ranges: vec![] },
            literal("a"),
        ],
    };
    let rules = vec![token("ANY", vec![Element::ZeroOrMore { inner: Box::new(all) }])];
    let lexer = Lexer::from_rules(&rules).unwrap();
    let states = lexer.get_states();
    let trap = lexer.get_trap();
    assert_eq!(trap, states.len() - 1);
    for s in 0..states.len() {
        let name = states[s].map(|n| n.as_str());
        assert_eq!(name, if s == trap { Some("_TRAP") } else { Some("ANY") });
        let moves = lexer.get_connections(s);
        assert_eq!(moves.len(), lexer.get_alphabet().len());
        if s == trap {
            assert!(moves.iter().all(|m| m.2 == trap));
        } else {
            assert!(moves.iter().all(|m| m.2 != trap));
        }
    }
    assert_eq!(lexer.tokenize("xay"), vec![("ANY".to_string(), "xay".to_string())]);
}

#[test]
fn negated_empty_class_repeated_has_a_trap() {
    let any = Element::NegatedSet { chars: vec![], ranges: vec![] };
    let rules = vec![token("T", vec![Element::ZeroOrMore { inner: Box::new(any) }])];
    let lexer = Lexer::from_rules(&rules).unwrap();
    let states = lexer.get_states();
    let traps: Vec<usize> =
        (0..states.len()).filter(|s| states[*s].map(|n| n.as_str()) == Some("_TRAP")).collect();
    assert_eq!(traps, vec![lexer.get_trap()]);
    assert_eq!(name_after(&lexer, "anything"), Some("T".to_string()));
}

#[test]
fn states_are_found_from_earlier_states() {
    let lexer = Lexer::from_rules(&sample_rules()).unwrap();
    let moves = lexer.transitions();
    for s in 1..lexer.get_states().len() {
        assert!(moves.iter().any(|m| m.end == s && m.start < s));
    }
    assert!(lexer.get_trap() < lexer.get_states().len());
}

#[test]
fn step_outside_the_automaton_stays() {
    let lexer = Lexer::from_rules(&sample_rules()).unwrap();
    let beyond = lexer.get_states().len();
    assert_eq!(lexer.step(beyond, 'a' as u32), beyond);
    assert_eq!(lexer.step(0, 0x110000), 0);
    assert_eq!(lexer.accepted(beyond), None);
}

#[test]
fn same_name_twice_is_one_name() {
    let rules = vec![token("A", vec![literal("ab")]), token("A", vec![literal("ab")])];
    let lexer = Lexer::from_rules(&rules).unwrap();
    assert_eq!(lexer.tokenize("ab"), vec![("A".to_string(), "ab".to_string())]);
}

#[test]
fn option_around_a_group_with_repetitions() {
    let rules = vec![token(
        "X",
        vec![Element::Optional {
            inner: Box::new(Element::Group {
                subelems: vec![
                    Element::OneOrMore { inner: Box::new(literal("a")) },
                    literal("b"),
                ],
            }),
        }],
    )];
    let lexer = Lexer::from_rules(&rules).unwrap();
    assert_eq!(name_after(&lexer, "aab"), Some("X".to_string()));
    assert_eq!(name_after(&lexer, "ab"), Some("X".to_string()));
    assert_eq!(name_after(&lexer, ""), Some("X".to_string()));
    assert_eq!(name_after(&lexer, "b"), None);
    assert_eq!(name_after(&lexer, "a"), None);
    assert_eq!(name_after(&lexer, "abab"), None);
}

#[test]
fn rules_clash_only_where_both_match() {
    let tail = Element::Group {
        subelems: vec![literal("b"), Element::OneOrMore { inner: Box::new(set("c", &[])) }],
    };
    let rules = vec![
        token("A", vec![Element::Optional { inner: Box::new(tail) }]),
        token("B", vec![literal("c")]),
    ];
    let lexer = Lexer::from_rules(&rules).unwrap();
    assert_eq!(name_after(&lexer, "c"), Some("B".to_string()));
    assert_eq!(name_after(&lexer, ""), Some("A".to_string()));
    assert_eq!(name_after(&lexer, "bcc"), Some("A".to_string()));
    assert_eq!(name_after(&lexer, "cc"), None);
    let clash = vec![
        token("A", vec![Element::ZeroOrMore { inner: Box::new(literal("c")) }]),
        token("B", vec![literal("c")]),
    ];
    assert!(Lexer::from_rules(&clash).is_err());
}

#[test]
fn long_literal_and_many_keywords() {
    let long: String = (0..300).map(|i| (b'a' + (i % 26) as u8) as char).collect();
    let mut rules = vec![token("LONG", vec![literal(&long)])];
    for i in 0..40 {
        let word = format!("k{}w{}", i, i * 7);
        rules.push(token(&format!("K{}", i), vec![literal(&word)]));
    }
    let lexer = Lexer::from_rules(&rules).unwrap();
    assert_eq!(name_after(&lexer, &long), Some("LONG".to_string()));
    assert_eq!(name_after(&lexer, &long[..299]), None);
    assert_eq!(name_after(&lexer, "k3w21"), Some("K3".to_string()));
    let text = format!("{}k39w273{}", long, long);
    let list = lexer.tokenize(&text);
    let kinds: Vec<&str> = list.iter().map(|(k, _)| k.as_str()).collect();
    assert_eq!(kinds, ["LONG", "K39", "LONG"]);
}

fn in_class(chars: &[char], ranges: &[(char, char)], c: char) -> bool {
    chars.contains(&c) || ranges.iter().any(|r| r.0 <= c && c <= r.1)
}

fn some_split(w: &[char], first: &dyn Fn(&[char]) -> bool, rest: &dyn Fn(&[char]) -> bool) -> bool {
    (0..=w.len()).any(|k| first(&w[..k]) && rest(&w[k..]))
}

fn several(e: &Element, w: &[char]) -> bool {
    matched(e, w) || (1..w.len()).any(|k| matched(e, &w[..k]) && several(e, &w[k..]))
}

fn in_turn(subs: &[Element], w: &[char]) -> bool {
    match subs.split_last() {
        None => w.is_empty(),
        Some((last, before)) => some_split(w, &|a| in_turn(before, a), &|b| matched(last, b)),
    }
}

fn matched(e: &Element, w: &[char]) -> bool {
    match e {
        Element::Rule { .. } => false,
        Element::CharSet { chars, ranges } => w.len() == 1 && in_class(chars, ranges, w[0]),
        Element::NegatedSet { chars, ranges } => w.len() == 1 && !in_class(chars, ranges, w[0]),
        Element::Literal { lit } => lit.chars().collect::<Vec<char>>() == w,
        Element::OneOrMore { inner } => several(inner, w),
        Element::ZeroOrMore { inner } => w.is_empty() || several(inner, w),
        Element::Optional { inner } => w.is_empty() || matched(inner, w),
        Element::Alternatives { subelems } => subelems.iter().any(|s| matched(s, w)),
        Element::Group { subelems } => in_turn(subelems, w),
    }
}

fn words_up_to(letters: &[char], n: usize) -> Vec<Vec<char>> {
    let mut all: Vec<Vec<char>> = vec![vec![]];
    let mut last: Vec<Vec<char>> = vec![vec![]];
    for _ in 0..n {
        let mut next = Vec::new();
        for w in &last {
            for c in letters {
                let mut longer = w.clone();
                longer.push(*c);
                next.push(longer);
            }
        }
        all.extend(next.iter().cloned());
        last = next;
    }
    all
}

fn nested_rules() -> Vec<Rule> {
    let plus = |e: Element| Element::OneOrMore { inner: Box::new(e) };
    let star = |e: Element| Element::ZeroOrMore { inner: Box::new(e) };
    let option = |e: Element| Element::Optional { inner: Box::new(e) };
    let group = |subelems: Vec<Element>| Element::Group { subelems };
    vec![
        token("P", vec![literal("d"), option(group(vec![plus(literal("a")), literal("b")]))]),
        token("Q", vec![literal("a"), star(group(vec![literal("b"), plus(set("c", &[]))]))]),
        token(
            "R",
            vec![
                literal("b"),
                star(option(literal("a"))),
                plus(star(Element::Alternatives { subelems: vec![literal("cd"), literal("c")] })),
            ],
        ),
        token("S", vec![literal("c"), option(star(plus(literal("ab")))), option(literal("a"))]),
    ]
}

#[test]
fn lexer_accepts_exactly_what_the_rules_match() {
    let rules = nested_rules();
    let lexer = Lexer::from_rules(&rules).unwrap();
    let alphabet = construct_alphabet(&rules);
    let nfa = construct_nfa(&rules, &alphabet);
    for w in words_up_to(&['a', 'b', 'c', 'd', 'e'], 6) {
        let names: Vec<String> = rules
            .iter()
            .filter(|r| matched(&r.element, &w))
            .map(|r| r.name.clone())
            .collect();
        assert!(names.len() <= 1);
        let text: String = w.iter().collect();
        assert_eq!(name_after(&lexer, &text), names.first().cloned(), "{:?}", text);
        assert_eq!(names_after(&nfa, &alphabet, &text), names, "{:?}", text);
    }
}

#[test]
fn lexer_accepts_the_sample_rules_exactly() {
    let rules = sample_rules();
    let lexer = Lexer::from_rules(&rules).unwrap();
    for w in words_up_to(&['<', '=', 'a', '_', '0', '.', '"'], 5) {
        let names: Vec<String> = rules
            .iter()
            .filter(|r| matched(&r.element, &w))
            .map(|r| r.name.clone())
            .collect();
        let text: String = w.iter().collect();
        assert_eq!(name_after(&lexer, &text), names.first().cloned(), "{:?}", text);
    }
}
