//! The grammar of rule files: what a text stands for, as functions from a
//! sequence of characters and a position to a value and the position
//! behind it.
use crate::rules::Element;
use crate::rules::Rule;
use vstd::prelude::*;

verus! {

/// An element, as a value to reason about.
pub enum ElementView {
    Rule { var: Option<Seq<char>>, name: Seq<char> },
    CharSet { chars: Seq<char>, ranges: Seq<(char, char)> },
    NegatedSet { chars: Seq<char>, ranges: Seq<(char, char)> },
    Literal { lit: Seq<char> },
    OneOrMore { inner: Box<ElementView> },
    ZeroOrMore { inner: Box<ElementView> },
    Optional { inner: Box<ElementView> },
    Alternatives { subelems: Seq<ElementView> },
    Group { subelems: Seq<ElementView> },
}

/// A rule, as a value to reason about.
pub struct RuleView {
    pub is_terminal: bool,
    pub export: bool,
    pub name: Seq<char>,
    pub element: ElementView,
    pub constructor_name: Option<Seq<char>>,
    pub constructor_vars: Option<Seq<Seq<char>>>,
}

/// The elements as values to reason about.
pub open spec fn element_views(elements: Seq<Element>) -> Seq<ElementView> {
    Seq::new(elements.len(), |i: int| elements[i]@)
}

/// The strings as sequences of characters.
pub open spec fn string_views(strings: Seq<String>) -> Seq<Seq<char>> {
    Seq::new(strings.len(), |i: int| strings[i]@)
}

/// The rules as values to reason about.
pub open spec fn rule_views(rules: Seq<Rule>) -> Seq<RuleView> {
    Seq::new(rules.len(), |i: int| rules[i]@)
}

impl Element {
    /// The element as a value to reason about.
    pub open spec fn tree(self) -> ElementView
        decreases self,
    {
        match self {
            Element::Rule { var, name } => ElementView::Rule {
                var: match var {
                    Some(v) => Some(v@),
                    None => None,
                },
                name: name@,
            },
            Element::CharSet { chars, ranges } => ElementView::CharSet {
                chars: chars@,
                ranges: ranges@,
            },
            Element::NegatedSet { chars, ranges } => ElementView::NegatedSet {
                chars: chars@,
                ranges: ranges@,
            },
            Element::Literal { lit } => ElementView::Literal { lit: lit@ },
            Element::OneOrMore { inner } => ElementView::OneOrMore { inner: Box::new(inner.tree()) },
            Element::ZeroOrMore { inner } => ElementView::ZeroOrMore {
                inner: Box::new(inner.tree()),
            },
            Element::Optional { inner } => ElementView::Optional { inner: Box::new(inner.tree()) },
            Element::Alternatives { subelems } => ElementView::Alternatives {
                subelems: Seq::new(
                    subelems@.len(),
                    |i: int|
                        if 0 <= i < subelems@.len() {
                            subelems@[i].tree()
                        } else {
                            ElementView::Alternatives { subelems: Seq::empty() }
                        },
                ),
            },
            Element::Group { subelems } => ElementView::Group {
                subelems: Seq::new(
                    subelems@.len(),
                    |i: int|
                        if 0 <= i < subelems@.len() {
                            subelems@[i].tree()
                        } else {
                            ElementView::Alternatives { subelems: Seq::empty() }
                        },
                ),
            },
        }
    }
}

impl View for Element {
    type V = ElementView;

    open spec fn view(&self) -> ElementView {
        self.tree()
    }
}

impl View for Rule {
    type V = RuleView;

    open spec fn view(&self) -> RuleView {
        RuleView {
            is_terminal: self.is_terminal,
            export: self.export,
            name: self.name@,
            element: self.element@,
            constructor_name: match self.constructor_name {
                Some(name) => Some(name@),
                None => None,
            },
            constructor_vars: match self.constructor_vars {
                Some(vars) => Some(string_views(vars@)),
                None => None,
            },
        }
    }
}

/// The character at `i` is `c`.
pub open spec fn char_at(s: Seq<char>, i: int, c: char) -> bool {
    0 <= i < s.len() && s[i] == c
}

/// The position behind the word `t`, where `t` stands at `i`.
pub open spec fn tagged(s: Seq<char>, i: int, t: Seq<char>) -> Option<int> {
    if 0 <= i && i + t.len() <= s.len() && s.subrange(i, i + t.len()) == t {
        Some(i + t.len())
    } else {
        None
    }
}

/// A space or a tab.
pub open spec fn is_blank(c: char) -> bool {
    c == ' ' || c == '\t'
}

/// The position behind the spaces and tabs that stand at `i`.
pub open spec fn blanks(s: Seq<char>, i: int) -> int
    decreases s.len() - i,
{
    if 0 <= i < s.len() && is_blank(s[i]) {
        blanks(s, i + 1)
    } else {
        i
    }
}

/// The position behind the spaces and tabs that stand at `i`, where there
/// is at least one.
pub open spec fn blanks1(s: Seq<char>, i: int) -> Option<int> {
    if 0 <= i < s.len() && is_blank(s[i]) {
        Some(blanks(s, i + 1))
    } else {
        None
    }
}

/// A letter of the Latin alphabet.
pub open spec fn is_name_start(c: char) -> bool {
    ('a' <= c && c <= 'z') || ('A' <= c && c <= 'Z')
}

/// A letter of the Latin alphabet, a digit or an underscore.
pub open spec fn is_name_part(c: char) -> bool {
    is_name_start(c) || ('0' <= c && c <= '9') || c == '_'
}

/// The text is a name: a letter, then letters, digits and underscores.
pub open spec fn is_rule_name(text: Seq<char>) -> bool {
    &&& text.len() > 0
    &&& is_name_start(text[0])
    &&& forall|i: int| 0 <= i < text.len() ==> is_name_part(#[trigger] text[i])
}

/// The position behind the letters, digits and underscores that stand at `i`.
pub open spec fn name_end(s: Seq<char>, i: int) -> int
    decreases s.len() - i,
{
    if 0 <= i < s.len() && is_name_part(s[i]) {
        name_end(s, i + 1)
    } else {
        i
    }
}

/// A name: a letter, then letters, digits and underscores.
pub open spec fn name(s: Seq<char>, i: int) -> Option<(Seq<char>, int)> {
    if 0 <= i < s.len() && is_name_start(s[i]) {
        let j = name_end(s, i + 1);
        Some((s.subrange(i, j), j))
    } else {
        None
    }
}

/// A member of a character class.
pub enum ClassItem {
    Char(char),
    Range(char, char),
}

/// One member of a character class: a bracket, a backslash or a hyphen
/// behind a backslash; a range of two characters with a hyphen between
/// them; or one character. A closing bracket is no member.
pub open spec fn class_item(s: Seq<char>, i: int) -> Option<(ClassItem, int)> {
    if !(0 <= i < s.len()) {
        None
    } else if s[i] == '\\' && char_at(s, i + 1, ']') {
        Some((ClassItem::Char(']'), i + 2))
    } else if s[i] == '\\' && char_at(s, i + 1, '\\') {
        Some((ClassItem::Char('\\'), i + 2))
    } else if s[i] == '\\' && char_at(s, i + 1, '-') {
        Some((ClassItem::Char('-'), i + 2))
    } else if s[i] != ']' && char_at(s, i + 1, '-') && i + 2 < s.len() && s[i + 2] != ']' {
        Some((ClassItem::Range(s[i], s[i + 2]), i + 3))
    } else if s[i] != ']' {
        Some((ClassItem::Char(s[i]), i + 1))
    } else {
        None
    }
}

/// The members of a character class from `i` on, added to `chars` and
/// `ranges`, and the position behind them.
pub open spec fn class_items(
    s: Seq<char>,
    i: int,
    chars: Seq<char>,
    ranges: Seq<(char, char)>,
) -> (Seq<char>, Seq<(char, char)>, int)
    decreases s.len() - i,
{
    match class_item(s, i) {
        Some((ClassItem::Char(c), j)) => if i < j <= s.len() {
            class_items(s, j, chars.push(c), ranges)
        } else {
            (chars, ranges, i)
        },
        Some((ClassItem::Range(a, b), j)) => if i < j <= s.len() {
            class_items(s, j, chars, ranges.push((a, b)))
        } else {
            (chars, ranges, i)
        },
        None => (chars, ranges, i),
    }
}

/// A character class: its members between square brackets, negated by a
/// caret behind the opening bracket.
pub open spec fn class(s: Seq<char>, i: int) -> Option<(ElementView, int)> {
    if char_at(s, i, '[') {
        let negated = char_at(s, i + 1, '^');
        let from = if negated {
            i + 2
        } else {
            i + 1
        };
        let (chars, ranges, j) = class_items(s, from, Seq::empty(), Seq::empty());
        if char_at(s, j, ']') {
            if negated {
                Some((ElementView::NegatedSet { chars, ranges }, j + 1))
            } else {
                Some((ElementView::CharSet { chars, ranges }, j + 1))
            }
        } else {
            None
        }
    } else {
        None
    }
}

/// One character of a literal: a quote, a backslash, a line feed or a tab
/// written as a backslash and `"`, `\`, `n` or `t`; or any character but a
/// quote and a backslash. A backslash before anything else is no character
/// of a literal.
pub open spec fn literal_item(s: Seq<char>, i: int) -> Option<(char, int)> {
    if !(0 <= i < s.len()) {
        None
    } else if s[i] == '"' {
        None
    } else if s[i] == '\\' {
        if char_at(s, i + 1, '"') {
            Some(('"', i + 2))
        } else if char_at(s, i + 1, '\\') {
            Some(('\\', i + 2))
        } else if char_at(s, i + 1, 'n') {
            Some(('\n', i + 2))
        } else if char_at(s, i + 1, 't') {
            Some(('\t', i + 2))
        } else {
            None
        }
    } else {
        Some((s[i], i + 1))
    }
}

/// The characters of a literal from `i` on, added to `text`, and the
/// position behind them.
pub open spec fn literal_items(s: Seq<char>, i: int, text: Seq<char>) -> (Seq<char>, int)
    decreases s.len() - i,
{
    match literal_item(s, i) {
        Some((c, j)) => if i < j <= s.len() {
            literal_items(s, j, text.push(c))
        } else {
            (text, i)
        },
        None => (text, i),
    }
}

/// A literal: one or more characters between quotes.
pub open spec fn literal(s: Seq<char>, i: int) -> Option<(ElementView, int)> {
    if char_at(s, i, '"') {
        let (text, j) = literal_items(s, i + 1, Seq::empty());
        if text.len() > 0 && char_at(s, j, '"') {
            Some((ElementView::Literal { lit: text }, j + 1))
        } else {
            None
        }
    } else {
        None
    }
}

/// A reference to a rule: its name, with a variable and a colon before it
/// or without.
pub open spec fn rule_ref(s: Seq<char>, i: int) -> Option<(ElementView, int)> {
    let (var, j) = match name(s, i) {
        Some((v, k)) => if char_at(s, k, ':') {
            (Some(v), k + 1)
        } else {
            (None, i)
        },
        None => (None, i),
    };
    match name(s, j) {
        Some((n, k)) => Some((ElementView::Rule { var, name: n }, k)),
        None => None,
    }
}

/// The position behind a bar with spaces and tabs around it.
pub open spec fn bar(s: Seq<char>, i: int) -> Option<int> {
    let j = blanks(s, i);
    if char_at(s, j, '|') {
        Some(blanks(s, j + 1))
    } else {
        None
    }
}

/// What a list of one element stands for, and what a longer one.
pub open spec fn grouped(items: Seq<ElementView>) -> ElementView {
    if items.len() == 1 {
        items[0]
    } else {
        ElementView::Group { subelems: items }
    }
}

/// What a list of one branch stands for, and what a longer one.
pub open spec fn alternated(items: Seq<ElementView>) -> ElementView {
    if items.len() == 1 {
        items[0]
    } else {
        ElementView::Alternatives { subelems: items }
    }
}

/// An element: the first that fits of a repetition, a literal, a character
/// class, a reference to a rule (where `refs` allows it), a group and an
/// alternation.
pub open spec fn element(s: Seq<char>, i: int, refs: bool) -> Option<(ElementView, int)>
    decreases s.len() - i, 3int,
{
    if !(0 <= i < s.len()) {
        None
    } else if repetition(s, i, refs) is Some {
        repetition(s, i, refs)
    } else if literal(s, i) is Some {
        literal(s, i)
    } else if class(s, i) is Some {
        class(s, i)
    } else if refs && rule_ref(s, i) is Some {
        rule_ref(s, i)
    } else if group(s, i, refs) is Some {
        group(s, i, refs)
    } else {
        alternatives(s, i, refs)
    }
}

/// A repetition: a group with `+`, `*` or `?` behind it.
pub open spec fn repetition(s: Seq<char>, i: int, refs: bool) -> Option<(ElementView, int)>
    decreases s.len() - i, 2int,
{
    if !(0 <= i < s.len()) {
        None
    } else {
        match group(s, i, refs) {
            Some((base, j)) => if char_at(s, j, '+') {
                Some((ElementView::OneOrMore { inner: Box::new(base) }, j + 1))
            } else if char_at(s, j, '*') {
                Some((ElementView::ZeroOrMore { inner: Box::new(base) }, j + 1))
            } else if char_at(s, j, '?') {
                Some((ElementView::Optional { inner: Box::new(base) }, j + 1))
            } else {
                None
            },
            None => None,
        }
    }
}

/// A group: elements between parentheses, with spaces or tabs between
/// them. A group of one element stands for that element.
pub open spec fn group(s: Seq<char>, i: int, refs: bool) -> Option<(ElementView, int)>
    decreases s.len() - i, 1int,
{
    if char_at(s, i, '(') {
        let j = blanks(s, i + 1);
        if i < j <= s.len() {
            match element(s, j, refs) {
                Some((first, k)) => if j < k <= s.len() {
                    let (items, m) = spaced(s, k, refs, seq![first]);
                    let n = blanks(s, m);
                    if char_at(s, n, ')') {
                        Some((grouped(items), n + 1))
                    } else {
                        None
                    }
                } else {
                    None
                },
                None => None,
            }
        } else {
            None
        }
    } else {
        None
    }
}

/// An alternation: elements between parentheses, with bars between them.
/// An alternation of one element stands for that element.
pub open spec fn alternatives(s: Seq<char>, i: int, refs: bool) -> Option<(ElementView, int)>
    decreases s.len() - i, 1int,
{
    if char_at(s, i, '(') {
        let j = blanks(s, i + 1);
        if i < j <= s.len() {
            match element(s, j, refs) {
                Some((first, k)) => if j < k <= s.len() {
                    let (items, m) = barred(s, k, refs, seq![first]);
                    let n = blanks(s, m);
                    if char_at(s, n, ')') {
                        Some((alternated(items), n + 1))
                    } else {
                        None
                    }
                } else {
                    None
                },
                None => None,
            }
        } else {
            None
        }
    } else {
        None
    }
}

/// The elements that follow at `i`, each behind spaces or tabs, added to
/// `items`, and the position behind the last of them.
pub open spec fn spaced(s: Seq<char>, i: int, refs: bool, items: Seq<ElementView>) -> (
    Seq<ElementView>,
    int,
)
    decreases s.len() - i, 0int,
{
    match blanks1(s, i) {
        Some(j) => if i < j <= s.len() {
            match element(s, j, refs) {
                Some((e, k)) => if j < k <= s.len() {
                    spaced(s, k, refs, items.push(e))
                } else {
                    (items, i)
                },
                None => (items, i),
            }
        } else {
            (items, i)
        },
        None => (items, i),
    }
}

/// The elements that follow at `i`, each behind a bar, added to `items`,
/// and the position behind the last of them.
pub open spec fn barred(s: Seq<char>, i: int, refs: bool, items: Seq<ElementView>) -> (
    Seq<ElementView>,
    int,
)
    decreases s.len() - i, 0int,
{
    match bar(s, i) {
        Some(j) => if i < j <= s.len() {
            match element(s, j, refs) {
                Some((e, k)) => if j < k <= s.len() {
                    barred(s, k, refs, items.push(e))
                } else {
                    (items, i)
                },
                None => (items, i),
            }
        } else {
            (items, i)
        },
        None => (items, i),
    }
}

/// The elements of a rule: one element, and more behind spaces or tabs.
pub open spec fn elements(s: Seq<char>, i: int, refs: bool) -> Option<(Seq<ElementView>, int)> {
    match element(s, i, refs) {
        Some((first, k)) => Some(spaced(s, k, refs, seq![first])),
        None => None,
    }
}

/// The position behind `name =`, with the name: spaces or tabs before the
/// name, and optional ones around the equals sign.
pub open spec fn head(s: Seq<char>, i: int) -> Option<(Seq<char>, int)> {
    match blanks1(s, i) {
        Some(j) => match name(s, j) {
            Some((n, k)) => {
                let m = blanks(s, k);
                if char_at(s, m, '=') {
                    Some((n, blanks(s, m + 1)))
                } else {
                    None
                }
            },
            None => None,
        },
        None => None,
    }
}

/// A terminal rule: `token`, a name, `=`, elements without references, `;`.
pub open spec fn token_rule(s: Seq<char>, i: int) -> Option<(RuleView, int)> {
    match tagged(s, i, "token"@) {
        Some(j) => match head(s, j) {
            Some((n, k)) => match elements(s, k, false) {
                Some((items, m)) => if char_at(s, m, ';') {
                    Some(
                        (
                            RuleView {
                                is_terminal: true,
                                export: false,
                                name: n,
                                element: ElementView::Group { subelems: items },
                                constructor_name: None,
                                constructor_vars: None,
                            },
                            m + 1,
                        ),
                    )
                } else {
                    None
                },
                None => None,
            },
            None => None,
        },
        None => None,
    }
}

/// The position behind a comma with spaces and tabs around it.
pub open spec fn comma(s: Seq<char>, i: int) -> Option<int> {
    let j = blanks(s, i);
    if char_at(s, j, ',') {
        Some(blanks(s, j + 1))
    } else {
        None
    }
}

/// The names that follow at `i`, each behind a comma, added to `names`,
/// and the position behind the last of them.
pub open spec fn more_names(s: Seq<char>, i: int, names: Seq<Seq<char>>) -> (Seq<Seq<char>>, int)
    decreases s.len() - i,
{
    match comma(s, i) {
        Some(j) => if i < j <= s.len() {
            match name(s, j) {
                Some((n, k)) => if j < k <= s.len() {
                    more_names(s, k, names.push(n))
                } else {
                    (names, i)
                },
                None => (names, i),
            }
        } else {
            (names, i)
        },
        None => (names, i),
    }
}

/// A constructor: a name, and names between parentheses with commas
/// between them.
pub open spec fn constructor(s: Seq<char>, i: int) -> Option<((Seq<char>, Seq<Seq<char>>), int)> {
    match name(s, i) {
        Some((kind, j)) => if char_at(s, j, '(') {
            let (vars, k) = match name(s, j + 1) {
                Some((first, m)) => more_names(s, m, seq![first]),
                None => (Seq::empty(), j + 1),
            };
            if char_at(s, k, ')') {
                Some(((kind, vars), k + 1))
            } else {
                None
            }
        } else {
            None
        },
        None => None,
    }
}

/// A non-terminal rule: `nonterm`, a name, `=`, elements, `->`, a
/// constructor, `;`.
pub open spec fn nonterminal_rule(s: Seq<char>, i: int) -> Option<(RuleView, int)> {
    match tagged(s, i, "nonterm"@) {
        Some(j) => match head(s, j) {
            Some((n, k)) => match elements(s, k, true) {
                Some((items, m)) => match tagged(s, blanks(s, m), "->"@) {
                    Some(a) => match constructor(s, blanks(s, a)) {
                        Some(((kind, vars), b)) => if char_at(s, b, ';') {
                            Some(
                                (
                                    RuleView {
                                        is_terminal: false,
                                        export: false,
                                        name: n,
                                        element: ElementView::Group { subelems: items },
                                        constructor_name: Some(kind),
                                        constructor_vars: Some(vars),
                                    },
                                    b + 1,
                                ),
                            )
                        } else {
                            None
                        },
                        None => None,
                    },
                    None => None,
                },
                None => None,
            },
            None => None,
        },
        None => None,
    }
}

/// A rule: a terminal or a non-terminal rule, exported where `export` and
/// a space stand before it.
pub open spec fn rule(s: Seq<char>, i: int) -> Option<(RuleView, int)> {
    let (export, j) = match tagged(s, i, "export "@) {
        Some(j) => (true, j),
        None => (false, i),
    };
    let parsed = if token_rule(s, j) is Some {
        token_rule(s, j)
    } else {
        nonterminal_rule(s, j)
    };
    match parsed {
        Some((r, k)) => Some((RuleView { export, ..r }, k)),
        None => None,
    }
}

/// The rules that follow at `i`, each behind a line feed, added to
/// `rules`, and the position behind the last of them.
pub open spec fn more_rules(s: Seq<char>, i: int, rules: Seq<RuleView>) -> (Seq<RuleView>, int)
    decreases s.len() - i,
{
    if char_at(s, i, '\n') {
        match rule(s, i + 1) {
            Some((r, k)) => if i < k <= s.len() {
                more_rules(s, k, rules.push(r))
            } else {
                (rules, i)
            },
            None => (rules, i),
        }
    } else {
        (rules, i)
    }
}

/// The rules of a file: one rule for each line, and the position up to
/// which the file is read. A line feed behind the last rule is read too.
pub open spec fn rules(s: Seq<char>) -> (Seq<RuleView>, int) {
    match rule(s, 0) {
        Some((first, k)) => {
            let (all, m) = more_rules(s, k, seq![first]);
            if char_at(s, m, '\n') {
                (all, m + 1)
            } else {
                (all, m)
            }
        },
        None => (Seq::empty(), 0),
    }
}

/// No two of the rules have one name.
pub open spec fn names_unique(rules: Seq<RuleView>) -> bool {
    forall|i: int, j: int|
        0 <= i < rules.len() && 0 <= j < rules.len() && i != j ==> (#[trigger] rules[i]).name != (
        #[trigger] rules[j]).name
}

} // verus!
