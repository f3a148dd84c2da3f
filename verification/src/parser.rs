//! The reader of rule files.
use crate::grammar::alternated;
use crate::grammar::alternatives;
use crate::grammar::bar;
use crate::grammar::barred;
use crate::grammar::blanks;
use crate::grammar::comma;
use crate::grammar::constructor;
use crate::grammar::elements;
use crate::grammar::head;
use crate::grammar::more_names;
use crate::grammar::more_rules;
use crate::grammar::names_unique;
use crate::grammar::nonterminal_rule;
use crate::grammar::rule;
use crate::grammar::rule_views;
use crate::grammar::rules;
use crate::grammar::string_views;
use crate::grammar::token_rule;
use crate::grammar::RuleView;
use crate::error::ParseError;
use crate::rules::Rule;
use crate::grammar::element;
use crate::grammar::element_views;
use crate::grammar::group;
use crate::grammar::grouped;
use crate::grammar::repetition;
use crate::grammar::rule_ref;
use crate::grammar::spaced;
use crate::grammar::blanks1;
use crate::grammar::char_at;
use crate::grammar::class;
use crate::grammar::class_items;
use crate::grammar::is_name_part;
use crate::grammar::is_rule_name;
use crate::grammar::is_name_start;
use crate::grammar::literal;
use crate::grammar::literal_items;
use crate::grammar::name;
use crate::grammar::name_end;
use crate::grammar::tagged;
use crate::grammar::ElementView;
use crate::rules::Element;
use crate::text::to_chars;
use vstd::prelude::*;

verus! {

/// What a reader gave is what the grammar gives: the same element, up to
/// the same position, or nothing.
pub open spec fn same_element(got: Option<(Element, usize)>, want: Option<(ElementView, int)>) -> bool {
    match got {
        Some((element, end)) => want == Some((element@, end as int)),
        None => want is None,
    }
}

/// What a reader gave is what the grammar gives: the same name, up to the
/// same position, or nothing.
pub open spec fn same_name(got: Option<(String, usize)>, want: Option<(Seq<char>, int)>) -> bool {
    match got {
        Some((text, end)) => want == Some((text@, end as int)),
        None => want is None,
    }
}

/// What a reader gave is the position that the grammar gives, or nothing.
pub open spec fn same_position(got: Option<usize>, want: Option<int>) -> bool {
    match got {
        Some(end) => want == Some(end as int),
        None => want is None,
    }
}

/// Whether the character at `pos` is `c`.
fn char_is(src: &Vec<char>, pos: usize, c: char) -> (found: bool)
    ensures
        found == char_at(src@, pos as int, c),
        found ==> pos < usize::MAX,
        src@.len() <= usize::MAX,
{
    pos < src.len() && src[pos] == c
}

/// The position behind the word `word`, where it stands at `pos`.
fn tag(src: &Vec<char>, pos: usize, word: &str) -> (end: Option<usize>)
    requires
        pos <= src@.len(),
    ensures
        same_position(end, tagged(src@, pos as int, word@)),
        end matches Some(e) ==> pos <= e <= src@.len(),
{
    let mut at: usize = pos;
    for c in it: word.chars()
        invariant
            it.seq() == word@,
            at == pos + it.index(),
            at <= src@.len(),
            src@.subrange(pos as int, at as int) == word@.take(it.index() as int),
    {
        if at >= src.len() || src[at] != c {
            proof {
                let want = word@;
                if pos + want.len() <= src@.len() {
                    let part = src@.subrange(pos as int, pos + want.len());
                    assert(part[it.index() as int] == src@[at as int]);
                    assert(want[it.index() as int] == c);
                }
            }
            return None;
        }
        at += 1;
        assert(src@.subrange(pos as int, at as int) =~= word@.take(it.index() + 1));
    }
    assert(word@.take(word@.len() as int) =~= word@);
    Some(at)
}

/// The position behind the spaces and tabs that stand at `pos`.
fn skip_blanks(src: &Vec<char>, pos: usize) -> (end: usize)
    requires
        pos <= src@.len(),
    ensures
        end == blanks(src@, pos as int),
        pos <= end <= src@.len(),
{
    let mut at: usize = pos;
    while at < src.len() && (src[at] == ' ' || src[at] == '\t')
        invariant
            pos <= at <= src@.len(),
            blanks(src@, at as int) == blanks(src@, pos as int),
        decreases src@.len() - at,
    {
        at += 1;
    }
    at
}

/// The position behind the spaces and tabs that stand at `pos`, where
/// there is at least one.
fn skip_blanks1(src: &Vec<char>, pos: usize) -> (end: Option<usize>)
    requires
        pos <= src@.len(),
    ensures
        same_position(end, blanks1(src@, pos as int)),
        end matches Some(e) ==> pos < e <= src@.len(),
{
    if pos < src.len() && (src[pos] == ' ' || src[pos] == '\t') {
        Some(skip_blanks(src, pos + 1))
    } else {
        None
    }
}

/// Whether `c` is a letter of the Latin alphabet.
fn name_start(c: char) -> (yes: bool)
    ensures
        yes == is_name_start(c),
{
    (c >= 'a' && c <= 'z') || (c >= 'A' && c <= 'Z')
}

/// Whether `c` is a letter of the Latin alphabet, a digit or an underscore.
fn name_part(c: char) -> (yes: bool)
    ensures
        yes == is_name_part(c),
{
    name_start(c) || (c >= '0' && c <= '9') || c == '_'
}

/// Reads a name: a letter, then letters, digits and underscores.
pub fn parse_name(src: &Vec<char>, pos: usize) -> (res: Option<(String, usize)>)
    requires
        pos <= src@.len(),
    ensures
        same_name(res, name(src@, pos as int)),
        res matches Some((text, end)) ==> pos < end <= src@.len() && is_rule_name(text@),
{
    if pos < src.len() && name_start(src[pos]) {
        let mut text = String::new();
        text.push(src[pos]);
        let mut at: usize = pos + 1;
        assert(text@ =~= src@.subrange(pos as int, at as int));
        while at < src.len() && name_part(src[at])
            invariant
                pos < at <= src@.len(),
                text@ == src@.subrange(pos as int, at as int),
                is_rule_name(text@),
                name_end(src@, at as int) == name_end(src@, pos + 1),
            decreases src@.len() - at,
        {
            text.push(src[at]);
            at += 1;
            assert(text@ =~= src@.subrange(pos as int, at as int));
        }
        Some((text, at))
    } else {
        None
    }
}

/// Reads a character class: its members between square brackets, negated
/// by a caret behind the opening bracket.
pub fn parse_set(src: &Vec<char>, pos: usize) -> (res: Option<(Element, usize)>)
    requires
        pos <= src@.len(),
    ensures
        same_element(res, class(src@, pos as int)),
        res matches Some((_, end)) ==> pos < end <= src@.len(),
{
    if !char_is(src, pos, '[') {
        return None;
    }
    let negated = char_is(src, pos + 1, '^');
    let from: usize = if negated {
        pos + 2
    } else {
        pos + 1
    };
    let mut chars: Vec<char> = Vec::new();
    let mut ranges: Vec<(char, char)> = Vec::new();
    let mut at: usize = from;
    let mut more = true;
    let ghost s = src@;
    let ghost total = class_items(s, from as int, Seq::empty(), Seq::empty());
    while more
        invariant
            s == src@,
            from <= at <= s.len(),
            class_items(s, at as int, chars@, ranges@) == total,
            !more ==> total == (chars@, ranges@, at as int),
        decreases s.len() - at, more as int,
    {
        if at >= src.len() {
            more = false;
        } else {
            let c = src[at];
            if c == '\\' && char_is(src, at + 1, ']') {
                chars.push(']');
                at += 2;
            } else if c == '\\' && char_is(src, at + 1, '\\') {
                chars.push('\\');
                at += 2;
            } else if c == '\\' && char_is(src, at + 1, '-') {
                chars.push('-');
                at += 2;
            } else if c != ']' && char_is(src, at + 1, '-') && at + 2 < src.len() && src[at + 2]
                != ']' {
                ranges.push((c, src[at + 2]));
                at += 3;
            } else if c != ']' {
                chars.push(c);
                at += 1;
            } else {
                more = false;
            }
        }
    }
    if !char_is(src, at, ']') {
        return None;
    }
    let element = if negated {
        Element::NegatedSet { chars, ranges }
    } else {
        Element::CharSet { chars, ranges }
    };
    Some((element, at + 1))
}

/// Reads a literal: one or more characters between quotes. A quote, a
/// backslash, a line feed and a tab are written behind a backslash, as
/// `"`, `\`, `n` and `t`; a backslash before anything else is an error.
pub fn parse_literal(src: &Vec<char>, pos: usize) -> (res: Option<(Element, usize)>)
    requires
        pos <= src@.len(),
    ensures
        same_element(res, literal(src@, pos as int)),
        res matches Some((_, end)) ==> pos < end <= src@.len(),
{
    if !char_is(src, pos, '"') {
        return None;
    }
    let mut text = String::new();
    let mut at: usize = pos + 1;
    let mut more = true;
    let mut count: usize = 0;
    let ghost s = src@;
    let ghost total = literal_items(s, pos + 1, Seq::empty());
    while more
        invariant
            s == src@,
            pos < at <= s.len(),
            literal_items(s, at as int, text@) == total,
            !more ==> total == (text@, at as int),
            count <= at,
            count == 0 <==> text@.len() == 0,
        decreases s.len() - at, more as int,
    {
        if at >= src.len() {
            more = false;
        } else {
            let c = src[at];
            if c == '"' {
                more = false;
            } else if c == '\\' {
                if char_is(src, at + 1, '"') {
                    text.push('"');
                    at += 2;
                    count = 1;
                } else if char_is(src, at + 1, '\\') {
                    text.push('\\');
                    at += 2;
                    count = 1;
                } else if char_is(src, at + 1, 'n') {
                    text.push('\n');
                    at += 2;
                    count = 1;
                } else if char_is(src, at + 1, 't') {
                    text.push('\t');
                    at += 2;
                    count = 1;
                } else {
                    more = false;
                }
            } else {
                text.push(c);
                at += 1;
                count = 1;
            }
        }
    }
    if count == 0 || !char_is(src, at, '"') {
        return None;
    }
    Some((Element::Literal { lit: text }, at + 1))
}

/// Reads a reference to a rule: its name, with a variable and a colon
/// before it or without.
pub fn parse_element_rule(src: &Vec<char>, pos: usize) -> (res: Option<(Element, usize)>)
    requires
        pos <= src@.len(),
    ensures
        same_element(res, rule_ref(src@, pos as int)),
        res matches Some((_, end)) ==> pos < end <= src@.len(),
{
    let mut var: Option<String> = None;
    let mut at: usize = pos;
    match parse_name(src, pos) {
        Some((v, k)) => {
            if char_is(src, k, ':') {
                var = Some(v);
                at = k + 1;
            }
        },
        None => {},
    }
    match parse_name(src, at) {
        Some((n, k)) => Some((Element::Rule { var, name: n }, k)),
        None => None,
    }
}

/// The position behind a bar with spaces and tabs around it.
fn skip_bar(src: &Vec<char>, pos: usize) -> (end: Option<usize>)
    requires
        pos <= src@.len(),
    ensures
        same_position(end, bar(src@, pos as int)),
        end matches Some(e) ==> pos < e <= src@.len(),
{
    let j = skip_blanks(src, pos);
    if char_is(src, j, '|') {
        Some(skip_blanks(src, j + 1))
    } else {
        None
    }
}

/// The element that a list of elements in parentheses stands for: the
/// element itself where it is one, a group else.
fn into_group(mut items: Vec<Element>) -> (element: Element)
    requires
        items@.len() > 0,
    ensures
        element@ == grouped(element_views(items@)),
{
    if items.len() == 1 {
        items.remove(0)
    } else {
        let ghost views = element_views(items@);
        let element = Element::Group { subelems: items };
        assert(element@->Group_subelems =~= views);
        element
    }
}

/// The element that a list of branches in parentheses stands for: the
/// branch itself where it is one, an alternation else.
fn into_alternatives(mut items: Vec<Element>) -> (element: Element)
    requires
        items@.len() > 0,
    ensures
        element@ == alternated(element_views(items@)),
{
    if items.len() == 1 {
        items.remove(0)
    } else {
        let ghost views = element_views(items@);
        let element = Element::Alternatives { subelems: items };
        assert(element@->Alternatives_subelems =~= views);
        element
    }
}

/// Reads an element: the first that fits of a repetition, a literal, a
/// character class, a reference to a rule (where `refs` allows it), a
/// group and an alternation.
fn parse_element_with(src: &Vec<char>, pos: usize, refs: bool) -> (res: Option<(Element, usize)>)
    requires
        pos <= src@.len(),
    ensures
        same_element(res, element(src@, pos as int, refs)),
        res matches Some((_, end)) ==> pos < end <= src@.len(),
    decreases src@.len() - pos, 3int,
{
    if pos >= src.len() {
        return None;
    }
    match parse_repetition_with(src, pos, refs) {
        Some(found) => {
            return Some(found);
        },
        None => {},
    }
    match parse_literal(src, pos) {
        Some(found) => {
            return Some(found);
        },
        None => {},
    }
    match parse_set(src, pos) {
        Some(found) => {
            return Some(found);
        },
        None => {},
    }
    if refs {
        match parse_element_rule(src, pos) {
            Some(found) => {
                return Some(found);
            },
            None => {},
        }
    }
    match parse_group_with(src, pos, refs) {
        Some(found) => {
            return Some(found);
        },
        None => {},
    }
    parse_alternatives_with(src, pos, refs)
}

/// Reads a repetition: a group with `+`, `*` or `?` behind it.
fn parse_repetition_with(src: &Vec<char>, pos: usize, refs: bool) -> (res: Option<(Element, usize)>)
    requires
        pos <= src@.len(),
    ensures
        same_element(res, repetition(src@, pos as int, refs)),
        res matches Some((_, end)) ==> pos < end <= src@.len(),
    decreases src@.len() - pos, 2int,
{
    if pos >= src.len() {
        return None;
    }
    match parse_group_with(src, pos, refs) {
        Some((base, j)) => {
            let inner = Box::new(base);
            if char_is(src, j, '+') {
                Some((Element::OneOrMore { inner }, j + 1))
            } else if char_is(src, j, '*') {
                Some((Element::ZeroOrMore { inner }, j + 1))
            } else if char_is(src, j, '?') {
                Some((Element::Optional { inner }, j + 1))
            } else {
                None
            }
        },
        None => None,
    }
}

/// Reads a group: elements between parentheses, with spaces or tabs
/// between them. A group of one element is that element.
fn parse_group_with(src: &Vec<char>, pos: usize, refs: bool) -> (res: Option<(Element, usize)>)
    requires
        pos <= src@.len(),
    ensures
        same_element(res, group(src@, pos as int, refs)),
        res matches Some((_, end)) ==> pos < end <= src@.len(),
    decreases src@.len() - pos, 1int,
{
    if !char_is(src, pos, '(') {
        return None;
    }
    let j = skip_blanks(src, pos + 1);
    match parse_element_with(src, j, refs) {
        Some((first, k)) => {
            let mut items: Vec<Element> = Vec::new();
            items.push(first);
            assert(element_views(items@) =~= seq![first@]);
            let m = parse_spaced(src, k, refs, &mut items);
            let n = skip_blanks(src, m);
            if char_is(src, n, ')') {
                Some((into_group(items), n + 1))
            } else {
                None
            }
        },
        None => None,
    }
}

/// Reads an alternation: elements between parentheses, with bars between
/// them. An alternation of one element is that element.
fn parse_alternatives_with(src: &Vec<char>, pos: usize, refs: bool) -> (res: Option<(
    Element,
    usize,
)>)
    requires
        pos <= src@.len(),
    ensures
        same_element(res, alternatives(src@, pos as int, refs)),
        res matches Some((_, end)) ==> pos < end <= src@.len(),
    decreases src@.len() - pos, 1int,
{
    if !char_is(src, pos, '(') {
        return None;
    }
    let j = skip_blanks(src, pos + 1);
    match parse_element_with(src, j, refs) {
        Some((first, k)) => {
            let mut items: Vec<Element> = Vec::new();
            items.push(first);
            assert(element_views(items@) =~= seq![first@]);
            let m = parse_barred(src, k, refs, &mut items);
            let n = skip_blanks(src, m);
            if char_is(src, n, ')') {
                Some((into_alternatives(items), n + 1))
            } else {
                None
            }
        },
        None => None,
    }
}

/// Reads the elements that follow at `pos`, each behind spaces or tabs,
/// into `items`, and gives the position behind the last of them.
fn parse_spaced(src: &Vec<char>, pos: usize, refs: bool, items: &mut Vec<Element>) -> (end: usize)
    requires
        pos <= src@.len(),
    ensures
        (element_views(final(items)@), end as int) == spaced(
            src@,
            pos as int,
            refs,
            element_views(old(items)@),
        ),
        pos <= end <= src@.len(),
        final(items)@.len() >= old(items)@.len(),
    decreases src@.len() - pos, 0int,
{
    match skip_blanks1(src, pos) {
        Some(j) => match parse_element_with(src, j, refs) {
            Some((e, k)) => {
                let ghost before = element_views(items@);
                items.push(e);
                assert(element_views(items@) =~= before.push(e@));
                parse_spaced(src, k, refs, items)
            },
            None => pos,
        },
        None => pos,
    }
}

/// Reads the elements that follow at `pos`, each behind a bar, into
/// `items`, and gives the position behind the last of them.
fn parse_barred(src: &Vec<char>, pos: usize, refs: bool, items: &mut Vec<Element>) -> (end: usize)
    requires
        pos <= src@.len(),
    ensures
        (element_views(final(items)@), end as int) == barred(
            src@,
            pos as int,
            refs,
            element_views(old(items)@),
        ),
        pos <= end <= src@.len(),
        final(items)@.len() >= old(items)@.len(),
    decreases src@.len() - pos, 0int,
{
    match skip_bar(src, pos) {
        Some(j) => match parse_element_with(src, j, refs) {
            Some((e, k)) => {
                let ghost before = element_views(items@);
                items.push(e);
                assert(element_views(items@) =~= before.push(e@));
                parse_barred(src, k, refs, items)
            },
            None => pos,
        },
        None => pos,
    }
}

/// Reads an element of a non-terminal rule.
pub fn parse_element(src: &Vec<char>, pos: usize) -> (res: Option<(Element, usize)>)
    requires
        pos <= src@.len(),
    ensures
        same_element(res, element(src@, pos as int, true)),
        res matches Some((_, end)) ==> pos < end <= src@.len(),
{
    parse_element_with(src, pos, true)
}

/// Reads an element of a terminal rule: one without references to rules.
pub fn parse_element_no_rule(src: &Vec<char>, pos: usize) -> (res: Option<(Element, usize)>)
    requires
        pos <= src@.len(),
    ensures
        same_element(res, element(src@, pos as int, false)),
        res matches Some((_, end)) ==> pos < end <= src@.len(),
{
    parse_element_with(src, pos, false)
}

/// Reads a repetition in a non-terminal rule.
pub fn parse_repetition(src: &Vec<char>, pos: usize) -> (res: Option<(Element, usize)>)
    requires
        pos <= src@.len(),
    ensures
        same_element(res, repetition(src@, pos as int, true)),
        res matches Some((_, end)) ==> pos < end <= src@.len(),
{
    parse_repetition_with(src, pos, true)
}

/// Reads a repetition in a terminal rule.
pub fn parse_repetition_no_rule(src: &Vec<char>, pos: usize) -> (res: Option<(Element, usize)>)
    requires
        pos <= src@.len(),
    ensures
        same_element(res, repetition(src@, pos as int, false)),
        res matches Some((_, end)) ==> pos < end <= src@.len(),
{
    parse_repetition_with(src, pos, false)
}

/// Reads a group in a non-terminal rule.
pub fn parse_group(src: &Vec<char>, pos: usize) -> (res: Option<(Element, usize)>)
    requires
        pos <= src@.len(),
    ensures
        same_element(res, group(src@, pos as int, true)),
        res matches Some((_, end)) ==> pos < end <= src@.len(),
{
    parse_group_with(src, pos, true)
}

/// Reads a group in a terminal rule.
pub fn parse_group_no_rule(src: &Vec<char>, pos: usize) -> (res: Option<(Element, usize)>)
    requires
        pos <= src@.len(),
    ensures
        same_element(res, group(src@, pos as int, false)),
        res matches Some((_, end)) ==> pos < end <= src@.len(),
{
    parse_group_with(src, pos, false)
}

/// Reads an alternation in a non-terminal rule.
pub fn parse_alternatives(src: &Vec<char>, pos: usize) -> (res: Option<(Element, usize)>)
    requires
        pos <= src@.len(),
    ensures
        same_element(res, alternatives(src@, pos as int, true)),
        res matches Some((_, end)) ==> pos < end <= src@.len(),
{
    parse_alternatives_with(src, pos, true)
}

/// Reads an alternation in a terminal rule.
pub fn parse_alternatives_no_rule(src: &Vec<char>, pos: usize) -> (res: Option<(Element, usize)>)
    requires
        pos <= src@.len(),
    ensures
        same_element(res, alternatives(src@, pos as int, false)),
        res matches Some((_, end)) ==> pos < end <= src@.len(),
{
    parse_alternatives_with(src, pos, false)
}

/// What a reader gave is what the grammar gives: the same rule, up to the
/// same position, or nothing.
pub open spec fn same_rule(got: Option<(Rule, usize)>, want: Option<(RuleView, int)>) -> bool {
    match got {
        Some((r, end)) => want == Some((r@, end as int)),
        None => want is None,
    }
}

/// Reads the elements of a rule: one element, and more behind spaces or
/// tabs.
fn parse_elements(src: &Vec<char>, pos: usize, refs: bool) -> (res: Option<(Vec<Element>, usize)>)
    requires
        pos <= src@.len(),
    ensures
        match res {
            Some((items, end)) => elements(src@, pos as int, refs) == Some(
                (element_views(items@), end as int),
            ) && pos < end <= src@.len(),
            None => elements(src@, pos as int, refs) is None,
        },
{
    match parse_element_with(src, pos, refs) {
        Some((first, k)) => {
            let mut items: Vec<Element> = Vec::new();
            items.push(first);
            assert(element_views(items@) =~= seq![first@]);
            let m = parse_spaced(src, k, refs, &mut items);
            Some((items, m))
        },
        None => None,
    }
}

/// Reads the head of a rule behind its first word: the name and the
/// equals sign.
fn parse_head(src: &Vec<char>, pos: usize) -> (res: Option<(String, usize)>)
    requires
        pos <= src@.len(),
    ensures
        same_name(res, head(src@, pos as int)),
        res matches Some((text, end)) ==> pos < end <= src@.len() && is_rule_name(text@),
{
    match skip_blanks1(src, pos) {
        Some(j) => match parse_name(src, j) {
            Some((n, k)) => {
                let m = skip_blanks(src, k);
                if char_is(src, m, '=') {
                    Some((n, skip_blanks(src, m + 1)))
                } else {
                    None
                }
            },
            None => None,
        },
        None => None,
    }
}

/// Reads a terminal rule: `token`, a name, `=`, elements without
/// references to rules, `;`.
pub fn parse_token(src: &Vec<char>, pos: usize) -> (res: Option<(Rule, usize)>)
    requires
        pos <= src@.len(),
    ensures
        same_rule(res, token_rule(src@, pos as int)),
        res matches Some((found, end)) ==> pos < end <= src@.len() && is_rule_name(found.name@),
{
    match tag(src, pos, "token") {
        Some(j) => match parse_head(src, j) {
            Some((name, k)) => match parse_elements(src, k, false) {
                Some((items, m)) => {
                    if char_is(src, m, ';') {
                        let ghost views = element_views(items@);
                        let element = Element::Group { subelems: items };
                        assert(element@->Group_subelems =~= views);
                        Some(
                            (
                                Rule {
                                    export: false,
                                    is_terminal: true,
                                    name,
                                    element,
                                    constructor_name: None,
                                    constructor_vars: None,
                                },
                                m + 1,
                            ),
                        )
                    } else {
                        None
                    }
                },
                None => None,
            },
            None => None,
        },
        None => None,
    }
}

/// The position behind a comma with spaces and tabs around it.
fn skip_comma(src: &Vec<char>, pos: usize) -> (end: Option<usize>)
    requires
        pos <= src@.len(),
    ensures
        same_position(end, comma(src@, pos as int)),
        end matches Some(e) ==> pos < e <= src@.len(),
{
    let j = skip_blanks(src, pos);
    if char_is(src, j, ',') {
        Some(skip_blanks(src, j + 1))
    } else {
        None
    }
}

/// Reads a constructor: a name, and names between parentheses with commas
/// between them.
pub fn parse_constructor(src: &Vec<char>, pos: usize) -> (res: Option<((String, Vec<String>), usize)>)
    requires
        pos <= src@.len(),
    ensures
        match res {
            Some(((kind, vars), end)) => constructor(src@, pos as int) == Some(
                ((kind@, string_views(vars@)), end as int),
            ) && pos < end <= src@.len(),
            None => constructor(src@, pos as int) is None,
        },
{
    match parse_name(src, pos) {
        Some((kind, j)) => {
            if !char_is(src, j, '(') {
                return None;
            }
            let mut vars: Vec<String> = Vec::new();
            let mut at: usize = j + 1;
            let ghost s = src@;
            match parse_name(src, j + 1) {
                Some((first, m)) => {
                    vars.push(first);
                    at = m;
                    assert(string_views(vars@) =~= seq![first@]);
                    let ghost total = more_names(s, m as int, seq![first@]);
                    let mut more = true;
                    while more
                        invariant
                            s == src@,
                            j < at <= s.len(),
                            more_names(s, at as int, string_views(vars@)) == total,
                            !more ==> total == (string_views(vars@), at as int),
                        decreases s.len() - at, more as int,
                    {
                        match skip_comma(src, at) {
                            Some(a) => match parse_name(src, a) {
                                Some((n, b)) => {
                                    let ghost before = string_views(vars@);
                                    vars.push(n);
                                    assert(string_views(vars@) =~= before.push(n@));
                                    at = b;
                                },
                                None => {
                                    more = false;
                                },
                            },
                            None => {
                                more = false;
                            },
                        }
                    }
                },
                None => {
                    assert(string_views(vars@) =~= Seq::<Seq<char>>::empty());
                },
            }
            if char_is(src, at, ')') {
                Some(((kind, vars), at + 1))
            } else {
                None
            }
        },
        None => None,
    }
}

/// Reads a non-terminal rule: `nonterm`, a name, `=`, elements, `->`, a
/// constructor, `;`.
pub fn parse_nonterminal(src: &Vec<char>, pos: usize) -> (res: Option<(Rule, usize)>)
    requires
        pos <= src@.len(),
    ensures
        same_rule(res, nonterminal_rule(src@, pos as int)),
        res matches Some((found, end)) ==> pos < end <= src@.len() && is_rule_name(found.name@),
{
    match tag(src, pos, "nonterm") {
        Some(j) => match parse_head(src, j) {
            Some((name, k)) => match parse_elements(src, k, true) {
                Some((items, m)) => match tag(src, skip_blanks(src, m), "->") {
                    Some(a) => match parse_constructor(src, skip_blanks(src, a)) {
                        Some(((kind, vars), b)) => {
                            if char_is(src, b, ';') {
                                let ghost views = element_views(items@);
                                let element = Element::Group { subelems: items };
                                assert(element@->Group_subelems =~= views);
                                Some(
                                    (
                                        Rule {
                                            export: false,
                                            is_terminal: false,
                                            name,
                                            element,
                                            constructor_name: Some(kind),
                                            constructor_vars: Some(vars),
                                        },
                                        b + 1,
                                    ),
                                )
                            } else {
                                None
                            }
                        },
                        None => None,
                    },
                    None => None,
                },
                None => None,
            },
            None => None,
        },
        None => None,
    }
}

/// Reads a rule: a terminal or a non-terminal rule, exported where
/// `export` and a space stand before it.
pub fn parse_rule(src: &Vec<char>, pos: usize) -> (res: Option<(Rule, usize)>)
    requires
        pos <= src@.len(),
    ensures
        same_rule(res, rule(src@, pos as int)),
        res matches Some((found, end)) ==> pos < end <= src@.len() && is_rule_name(found.name@),
{
    let (export, j) = match tag(src, pos, "export ") {
        Some(j) => (true, j),
        None => (false, pos),
    };
    let parsed = match parse_token(src, j) {
        Some(found) => Some(found),
        None => parse_nonterminal(src, j),
    };
    match parsed {
        Some((mut r, k)) => {
            r.export = export;
            Some((r, k))
        },
        None => None,
    }
}

/// Whether no two of the rules have one name.
fn check_names(rules: &Vec<Rule>) -> (unique: bool)
    ensures
        unique == names_unique(rule_views(rules@)),
{
    let ghost views = rule_views(rules@);
    let mut i: usize = 0;
    while i < rules.len()
        invariant
            i <= rules@.len(),
            views == rule_views(rules@),
            forall|a: int, b: int|
                0 <= a < i && 0 <= b < rules@.len() && a != b ==> (#[trigger] views[a]).name != (
                #[trigger] views[b]).name,
        decreases rules@.len() - i,
    {
        let mut j: usize = 0;
        while j < rules.len()
            invariant
                i < rules@.len(),
                j <= rules@.len(),
                views == rule_views(rules@),
                forall|b: int|
                    0 <= b < j && b != i ==> views[i as int].name != (#[trigger] views[b]).name,
            decreases rules@.len() - j,
        {
            if i != j && rules[i].name == rules[j].name {
                assert(views[i as int].name == views[j as int].name);
                return false;
            }
            j += 1;
        }
        i += 1;
    }
    true
}

/// Reads a rule file: one rule on each line, and a line feed behind the
/// last one or none.
///
/// The text must be rules from its first character to its last: where
/// reading stops before the end, the error tells where. The rules must
/// have different names.
pub fn parse_rules(text: &str) -> (res: Result<Vec<Rule>, ParseError>)
    ensures
        match res {
            Ok(found) => {
                &&& rules(text@) == (rule_views(found@), text@.len() as int)
                &&& found@.len() > 0
                &&& names_unique(rule_views(found@))
                &&& forall|i: int| 0 <= i < found@.len() ==> is_rule_name((#[trigger] found@[i]).name@)
            },
            Err(ParseError::Unparsed { at }) => {
                &&& at == rules(text@).1
                &&& (rules(text@).0.len() == 0 || at != text@.len())
            },
            Err(ParseError::DuplicateName) => {
                &&& rules(text@).1 == text@.len()
                &&& rules(text@).0.len() > 0
                &&& !names_unique(rules(text@).0)
            },
        },
{
    let src = to_chars(text);
    let ghost s = src@;
    let mut found: Vec<Rule> = Vec::new();
    let mut at: usize = 0;
    match parse_rule(&src, 0) {
        Some((first, k)) => {
            found.push(first);
            at = k;
            assert(rule_views(found@) =~= seq![first@]);
            let ghost total = more_rules(s, k as int, seq![first@]);
            let mut more = true;
            while more
                invariant
                    s == src@,
                    0 < at <= s.len(),
                    found@.len() > 0,
                    forall|i: int|
                        0 <= i < found@.len() ==> is_rule_name((#[trigger] found@[i]).name@),
                    more_rules(s, at as int, rule_views(found@)) == total,
                    !more ==> total == (rule_views(found@), at as int),
                decreases s.len() - at, more as int,
            {
                if char_is(&src, at, '\n') {
                    match parse_rule(&src, at + 1) {
                        Some((r, b)) => {
                            let ghost before = rule_views(found@);
                            found.push(r);
                            assert(rule_views(found@) =~= before.push(r@));
                            at = b;
                        },
                        None => {
                            more = false;
                        },
                    }
                } else {
                    more = false;
                }
            }
            if char_is(&src, at, '\n') {
                at += 1;
            }
        },
        None => {
            assert(rule_views(found@) =~= Seq::<RuleView>::empty());
        },
    }
    if found.len() == 0 || at != src.len() {
        return Err(ParseError::Unparsed { at });
    }
    if !check_names(&found) {
        return Err(ParseError::DuplicateName);
    }
    Ok(found)
}

} // verus!
