//! The element tree that rules are written in.
use crate::error::LexerError;
use vstd::prelude::*;

verus! {

/// The largest code point.
pub const MAX_CODEPOINT: u32 = 0x10FFFF;

/// A regular expression over code points.
#[derive(Debug, PartialEq, Eq)]
pub enum Element {
    /// A reference to another rule; only non-terminal rules may hold one.
    Rule { var: Option<String>, name: String },
    /// Any one of the listed characters or of the inclusive ranges.
    CharSet { chars: Vec<char>, ranges: Vec<(char, char)> },
    /// Any one code point outside the listed characters and ranges.
    NegatedSet { chars: Vec<char>, ranges: Vec<(char, char)> },
    /// The characters of `lit`, one after the other.
    Literal { lit: String },
    /// `inner`, once or several times.
    OneOrMore { inner: Box<Element> },
    /// `inner`, any number of times or not at all.
    ZeroOrMore { inner: Box<Element> },
    /// `inner`, once or not at all.
    Optional { inner: Box<Element> },
    /// Any one of the sub-elements.
    Alternatives { subelems: Vec<Element> },
    /// The sub-elements, one after the other.
    Group { subelems: Vec<Element> },
}

/// A named rule. Only terminal rules take part in the automaton.
#[derive(Debug, PartialEq, Eq)]
pub struct Rule {
    pub is_terminal: bool,
    pub export: bool,
    pub name: String,
    pub element: Element,
    pub constructor_name: Option<String>,
    pub constructor_vars: Option<Vec<String>>,
}

/// Whether a character class written as `chars` and `ranges` names `p` as a
/// character or as an end of a range.
pub open spec fn class_mentions(chars: Seq<char>, ranges: Seq<(char, char)>, p: u32) -> bool {
    ||| exists|i: int| 0 <= i < chars.len() && #[trigger] chars[i] as u32 == p
    ||| exists|i: int| 0 <= i < ranges.len() && (#[trigger] ranges[i]).0 as u32 == p
    ||| exists|i: int| 0 <= i < ranges.len() && (#[trigger] ranges[i]).1 as u32 == p
}

/// Whether the code point `c` belongs to the class written as `chars` and
/// `ranges`.
pub open spec fn class_contains(chars: Seq<char>, ranges: Seq<(char, char)>, c: u32) -> bool {
    ||| exists|i: int| 0 <= i < chars.len() && #[trigger] chars[i] as u32 == c
    ||| exists|i: int|
        0 <= i < ranges.len() && (#[trigger] ranges[i]).0 as u32 <= c <= ranges[i].1 as u32
}

impl Element {
    /// Whether the element names the code point `p`: as a character of a
    /// literal, as a character of a class, or as an end of a range.
    pub open spec fn mentions(self, p: u32) -> bool
        decreases self,
    {
        match self {
            Element::Rule { .. } => false,
            Element::CharSet { chars, ranges } => class_mentions(chars@, ranges@, p),
            Element::NegatedSet { chars, ranges } => class_mentions(chars@, ranges@, p),
            Element::Literal { lit } => exists|i: int|
                0 <= i < lit@.len() && #[trigger] lit@[i] as u32 == p,
            Element::OneOrMore { inner } => inner.mentions(p),
            Element::ZeroOrMore { inner } => inner.mentions(p),
            Element::Optional { inner } => inner.mentions(p),
            Element::Alternatives { subelems } => exists|i: int|
                0 <= i < subelems.len() && (#[trigger] subelems[i]).mentions(p),
            Element::Group { subelems } => exists|i: int|
                0 <= i < subelems.len() && (#[trigger] subelems[i]).mentions(p),
        }
    }
}

/// The first defect among the first `n` elements of `subs`.
pub open spec fn first_defect(subs: Seq<Element>, n: nat) -> Option<LexerError>
    decreases subs, n,
{
    if n == 0 || n > subs.len() {
        None
    } else {
        match first_defect(subs, (n - 1) as nat) {
            Some(e) => Some(e),
            None => subs[n - 1].defect(),
        }
    }
}

impl Element {
    /// What makes the element unfit for a terminal rule, if anything does:
    /// the first defect met when the tree is read from left to right.
    pub open spec fn defect(self) -> Option<LexerError>
        decreases self, 0nat,
    {
        match self {
            Element::Rule { .. } => Some(LexerError::NonTerminalReference),
            Element::CharSet { .. } => None,
            Element::NegatedSet { .. } => None,
            Element::Literal { lit } => if lit@.len() == 0 {
                Some(LexerError::EmptyLiteral)
            } else {
                None
            },
            Element::OneOrMore { inner } => inner.defect(),
            Element::ZeroOrMore { inner } => inner.defect(),
            Element::Optional { inner } => inner.defect(),
            Element::Alternatives { subelems } => first_defect(subelems@, subelems@.len()),
            Element::Group { subelems } => if subelems@.len() == 0 {
                Some(LexerError::EmptyGroup)
            } else {
                first_defect(subelems@, subelems@.len())
            },
        }
    }

    /// Whether the element can stand in a terminal rule.
    pub open spec fn valid(self) -> bool {
        self.defect() is None
    }

    /// Looks for what makes the element unfit for a terminal rule.
    pub fn check(&self) -> (res: Result<(), LexerError>)
        ensures
            match self.defect() {
                Some(e) => res == Err::<(), LexerError>(e),
                None => res is Ok,
            },
        decreases self,
    {
        match self {
            Element::Rule { .. } => Err(LexerError::NonTerminalReference),
            Element::CharSet { .. } => Ok(()),
            Element::NegatedSet { .. } => Ok(()),
            Element::Literal { lit } => {
                if lit.as_str().is_empty() {
                    Err(LexerError::EmptyLiteral)
                } else {
                    Ok(())
                }
            },
            Element::OneOrMore { inner } => inner.check(),
            Element::ZeroOrMore { inner } => inner.check(),
            Element::Optional { inner } => inner.check(),
            Element::Alternatives { subelems } => check_all(subelems),
            Element::Group { subelems } => {
                if subelems.len() == 0 {
                    Err(LexerError::EmptyGroup)
                } else {
                    check_all(subelems)
                }
            },
        }
    }
}

/// Looks for the first defect among `subs`.
pub fn check_all(subs: &Vec<Element>) -> (res: Result<(), LexerError>)
    ensures
        match first_defect(subs@, subs@.len()) {
            Some(e) => res == Err::<(), LexerError>(e),
            None => res is Ok,
        },
    decreases subs,
{
    let mut i: usize = 0;
    while i < subs.len()
        invariant
            i <= subs.len(),
            first_defect(subs@, i as nat) is None,
        decreases subs.len() - i,
    {
        match subs[i].check() {
            Err(e) => {
                proof {
                    lemma_first_defect_stays(subs@, (i + 1) as nat, subs@.len());
                }
                return Err(e);
            },
            Ok(()) => {},
        }
        i += 1;
    }
    Ok(())
}

/// A defect found among the first `n` elements is the one found among the
/// first `m`, for `m` from `n` on.
pub proof fn lemma_first_defect_stays(subs: Seq<Element>, n: nat, m: nat)
    requires
        n <= m <= subs.len(),
        first_defect(subs, n) is Some,
    ensures
        first_defect(subs, m) == first_defect(subs, n),
    decreases m,
{
    if n < m {
        lemma_first_defect_stays(subs, n, (m - 1) as nat);
    }
}

} // verus!
