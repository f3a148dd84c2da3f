//! What can stop a build.
use vstd::prelude::*;

verus! {

/// Why a set of rules has no lexer.
#[derive(Debug, Clone, Copy, PartialEq, Eq, Structural)]
pub enum LexerError {
    /// A terminal rule refers to another rule.
    NonTerminalReference,
    /// A group has no sub-element.
    EmptyGroup,
    /// A literal has no character.
    EmptyLiteral,
    /// One input is a complete match of two rules with different names.
    AmbiguousAccept,
    /// A terminal rule bears the reserved name `_TRAP`.
    ReservedName,
}

impl LexerError {
    /// The diagnostic for the error.
    pub fn message(&self) -> (text: String)
        ensures
            text@ == self.message_text(),
    {
        match self {
            LexerError::NonTerminalReference => "Non-terminal reference inside a terminal rule".to_owned(),
            LexerError::EmptyGroup => "Group without sub-elements".to_owned(),
            LexerError::EmptyLiteral => "Literal without characters".to_owned(),
            LexerError::AmbiguousAccept => "Accepting state must accept exactly one rule".to_owned(),
            LexerError::ReservedName => "Rule name is reserved".to_owned(),
        }
    }

    /// The characters of the diagnostic.
    pub open spec fn message_text(self) -> Seq<char> {
        match self {
            LexerError::NonTerminalReference => "Non-terminal reference inside a terminal rule"@,
            LexerError::EmptyGroup => "Group without sub-elements"@,
            LexerError::EmptyLiteral => "Literal without characters"@,
            LexerError::AmbiguousAccept => "Accepting state must accept exactly one rule"@,
            LexerError::ReservedName => "Rule name is reserved"@,
        }
    }
}

/// Why a text is no rule file.
#[derive(Debug, Clone, Copy, PartialEq, Eq, Structural)]
pub enum ParseError {
    /// The text is not read to its end: what starts at the character `at`
    /// is no rule, or follows where the file should end.
    Unparsed { at: usize },
    /// Two rules have one name.
    DuplicateName,
}

impl ParseError {
    /// The diagnostic for the error, without the text that was not read.
    pub fn message(&self) -> (text: String)
        ensures
            text@ == self.message_text(),
    {
        match self {
            ParseError::Unparsed { .. } => "Failed to parse whole file".to_owned(),
            ParseError::DuplicateName => "Rule names aren't unique".to_owned(),
        }
    }

    /// The characters of the diagnostic.
    pub open spec fn message_text(self) -> Seq<char> {
        match self {
            ParseError::Unparsed { .. } => "Failed to parse whole file"@,
            ParseError::DuplicateName => "Rule names aren't unique"@,
        }
    }
}

} // verus!
