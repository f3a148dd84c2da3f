//! Reading a text with a lexer: at each position the longest lexeme that a
//! rule matches.
use crate::alphabet::contiguous;
use crate::dfa::complete;
use crate::dfa::fires;
use crate::dfa::lemma_complete_deterministic;
use crate::dfa::next_state;
use crate::dfa::run;
use crate::dfa::Connection;
use crate::lexer::absorbing;
use crate::lexer::accepting;
use crate::lexer::Lexer;
use crate::text::text_of;
use crate::text::to_chars;
use vstd::prelude::*;

verus! {

/// The code points of the characters of `input` from `from` up to `to`.
pub open spec fn word(input: Seq<char>, from: int, to: int) -> Seq<u32> {
    Seq::new((to - from) as nat, |i: int| input[from + i] as u32)
}

/// The characters of `input` from `start` up to `end` are a lexeme: after
/// them the automaton is in a state that accepts for a rule.
pub open spec fn matches_to(
    connections: Seq<Connection>,
    labels: Seq<Option<Seq<char>>>,
    input: Seq<char>,
    start: int,
    end: int,
) -> bool {
    start < end <= input.len() && accepting(labels, run(connections, word(input, start, end)))
}

/// `found` is the end of the longest lexeme that starts at `start` and
/// ends at `limit` or before it, if there is a lexeme.
pub open spec fn longest(
    connections: Seq<Connection>,
    labels: Seq<Option<Seq<char>>>,
    input: Seq<char>,
    start: int,
    limit: int,
    found: Option<int>,
) -> bool {
    match found {
        Some(end) => end <= limit && matches_to(connections, labels, input, start, end)
            && forall|x: int|
            end < x <= limit ==> !#[trigger] matches_to(connections, labels, input, start, x),
        None => forall|x: int|
            start < x <= limit ==> !#[trigger] matches_to(connections, labels, input, start, x),
    }
}

/// One more character is one more move.
pub proof fn lemma_run_extends(connections: Seq<Connection>, input: Seq<char>, start: int, end: int)
    requires
        0 <= start <= end < input.len(),
    ensures
        run(connections, word(input, start, end + 1)) == next_state(
            connections,
            run(connections, word(input, start, end)),
            input[end] as u32,
        ),
{
    let longer = word(input, start, end + 1);
    assert(longer.drop_last() =~= word(input, start, end));
}

/// From a state that every move leads back to, the automaton does not get
/// away.
pub proof fn lemma_trap_holds(
    connections: Seq<Connection>,
    input: Seq<char>,
    start: int,
    at: int,
    end: int,
    t: int,
)
    requires
        0 <= start <= at <= end <= input.len(),
        absorbing(connections, t),
        run(connections, word(input, start, at)) == t,
    ensures
        run(connections, word(input, start, end)) == t,
    decreases end - at,
{
    if at < end {
        lemma_trap_holds(connections, input, start, at, end - 1, t);
        lemma_run_extends(connections, input, start, end - 1);
    }
}

impl Lexer {
    /// The state that follows `state` over the code point `c`.
    pub fn step(&self, state: usize, c: u32) -> (next: usize)
        ensures
            next == next_state(self.connections(), state as int, c),
    {
        let connections = self.transitions();
        let ghost conns = connections@;
        let mut i: usize = 0;
        while i < connections.len()
            invariant
                i <= conns.len(),
                conns == connections@,
                conns == self.connections(),
                contiguous(self.alphabet()),
                complete(conns, self.alphabet(), self.states().len() as int),
                forall|j: int| 0 <= j < i ==> !fires(conns, j, state as int, c),
            decreases conns.len() - i,
        {
            let connection = &connections[i];
            if connection.start == state && connection.range.0 <= c && c <= connection.range.1 {
                proof {
                    assert(fires(conns, i as int, state as int, c));
                    let chosen = choose|j: int| fires(conns, j, state as int, c);
                    if chosen != i {
                        lemma_complete_deterministic(
                            conns,
                            self.alphabet(),
                            self.states().len() as int,
                            i as int,
                            chosen,
                        );
                    }
                }
                return connection.end;
            }
            i += 1;
        }
        state
    }

    /// The longest lexeme that starts at `start`: the state in which the
    /// automaton is after it, and the position behind it.
    pub fn longest_match(&self, input: &Vec<char>, start: usize) -> (found: Option<(usize, usize)>)
        requires
            start <= input@.len(),
        ensures
            longest(
                self.connections(),
                self.states(),
                input@,
                start as int,
                input@.len() as int,
                match found {
                    Some((_, end)) => Some(end as int),
                    None => None,
                },
            ),
            found matches Some((state, end)) ==> state == run(
                self.connections(),
                word(input@, start as int, end as int),
            ),
    {
        let ghost conns = self.connections();
        let ghost labels = self.states();
        let trap = self.get_trap();
        let mut state: usize = 0;
        let mut pos: usize = start;
        let mut best: Option<(usize, usize)> = None;
        assert(word(input@, start as int, start as int) =~= Seq::<u32>::empty());
        while pos < input.len() && state != trap
            invariant
                start <= pos <= input@.len(),
                conns == self.connections(),
                labels == self.states(),
                trap == self.trap(),
                absorbing(conns, trap as int) && !accepting(labels, trap as int),
                state == run(conns, word(input@, start as int, pos as int)),
                longest(
                    conns,
                    labels,
                    input@,
                    start as int,
                    pos as int,
                    match best {
                        Some((_, end)) => Some(end as int),
                        None => None,
                    },
                ),
                best matches Some((s, end)) ==> s == run(
                    conns,
                    word(input@, start as int, end as int),
                ),
            decreases input@.len() - pos,
        {
            proof {
                lemma_run_extends(conns, input@, start as int, pos as int);
            }
            state = self.step(state, input[pos] as u32);
            pos += 1;
            match self.accepted(state) {
                Some(_) => {
                    best = Some((state, pos));
                },
                None => {},
            }
        }
        proof {
            let end = match best {
                Some((_, end)) => Some(end as int),
                None => None,
            };
            assert forall|x: int| pos < x <= input@.len() implies !#[trigger] matches_to(
                conns,
                labels,
                input@,
                start as int,
                x,
            ) by {
                lemma_trap_holds(conns, input@, start as int, pos as int, x, state as int);
            }
        }
        best
    }
}

/// What stands at a position of a text.
#[derive(Debug, Clone, Copy, PartialEq, Eq)]
pub enum Token {
    /// A lexeme up to `end`, after which the automaton is in `state`.
    Lexeme { state: usize, end: usize },
    /// A character with which no lexeme starts; the next position is `end`.
    Error { end: usize },
    /// The end of the text.
    Eof,
}

/// The kind of the token at the end of a text.
pub open spec fn eof_kind() -> Seq<char> {
    "_EOF"@
}

/// The kind of a token for a character with which no lexeme starts.
pub open spec fn error_kind() -> Seq<char> {
    "_ERR"@
}

/// The end of the longest lexeme that starts at `start`, if there is a
/// lexeme.
pub open spec fn lexeme_end(
    connections: Seq<Connection>,
    labels: Seq<Option<Seq<char>>>,
    input: Seq<char>,
    start: int,
) -> Option<int> {
    if exists|end: int| longest(connections, labels, input, start, input.len() as int, Some(end)) {
        Some(
            choose|end: int|
                longest(connections, labels, input, start, input.len() as int, Some(end)),
        )
    } else {
        None
    }
}

/// The tokens of `input` from `start` on: at each position the longest
/// lexeme with the name of the rule that matches it, or, where no lexeme
/// starts, one character as an error.
pub open spec fn tokens(
    connections: Seq<Connection>,
    labels: Seq<Option<Seq<char>>>,
    input: Seq<char>,
    start: int,
) -> Seq<(Seq<char>, Seq<char>)>
    decreases input.len() - start,
{
    if !(0 <= start < input.len()) {
        Seq::empty()
    } else {
        match lexeme_end(connections, labels, input, start) {
            Some(end) => if start < end <= input.len() {
                seq![
                    (
                        labels[run(connections, word(input, start, end))]->0,
                        input.subrange(start, end),
                    ),
                ] + tokens(connections, labels, input, end)
            } else {
                Seq::empty()
            },
            None => seq![(error_kind(), input.subrange(start, start + 1))] + tokens(
                connections,
                labels,
                input,
                start + 1,
            ),
        }
    }
}

/// The lexemes of the tokens, one after the other.
pub open spec fn lexemes(list: Seq<(Seq<char>, Seq<char>)>) -> Seq<char>
    decreases list.len(),
{
    if list.len() == 0 {
        Seq::empty()
    } else {
        list[0].1 + lexemes(list.drop_first())
    }
}

/// The longest lexeme at a position is one: what is the longest is the end
/// that the tokens are cut at.
pub proof fn lemma_lexeme_end(
    connections: Seq<Connection>,
    labels: Seq<Option<Seq<char>>>,
    input: Seq<char>,
    start: int,
    found: Option<int>,
)
    requires
        longest(connections, labels, input, start, input.len() as int, found),
    ensures
        lexeme_end(connections, labels, input, start) == found,
{
    let limit = input.len() as int;
    match found {
        Some(end) => {
            let other = choose|e: int| longest(connections, labels, input, start, limit, Some(e));
            assert(longest(connections, labels, input, start, limit, Some(other)));
            if other < end {
                assert(!matches_to(connections, labels, input, start, end));
            } else if end < other {
                assert(!matches_to(connections, labels, input, start, other));
            }
        },
        None => {
            if exists|e: int| longest(connections, labels, input, start, limit, Some(e)) {
                let other = choose|e: int| longest(connections, labels, input, start, limit, Some(e));
                assert(!matches_to(connections, labels, input, start, other));
            }
        },
    }
}

/// Among the lexemes that start at `start` and end at `limit` or before
/// it, one is the longest, where there is one at all.
pub proof fn lemma_longest_exists(
    connections: Seq<Connection>,
    labels: Seq<Option<Seq<char>>>,
    input: Seq<char>,
    start: int,
    limit: int,
) -> (found: Option<int>)
    requires
        start <= limit,
    ensures
        longest(connections, labels, input, start, limit, found),
    decreases limit - start,
{
    if start == limit {
        None
    } else if matches_to(connections, labels, input, start, limit) {
        Some(limit)
    } else {
        lemma_longest_exists(connections, labels, input, start, limit - 1)
    }
}

/// The first token at a position is the longest lexeme that starts there:
/// where any lexeme starts at `start`, the first token is a lexeme, at
/// least as long, under the name that the automaton gives it.
pub proof fn lemma_token_is_longest(
    connections: Seq<Connection>,
    labels: Seq<Option<Seq<char>>>,
    input: Seq<char>,
    start: int,
    end: int,
)
    requires
        0 <= start,
        matches_to(connections, labels, input, start, end),
    ensures
        tokens(connections, labels, input, start).len() > 0,
        tokens(connections, labels, input, start)[0].1.len() >= end - start,
        matches_to(
            connections,
            labels,
            input,
            start,
            start + tokens(connections, labels, input, start)[0].1.len(),
        ),
        Some(tokens(connections, labels, input, start)[0].0) == labels[run(
            connections,
            word(
                input,
                start,
                start + tokens(connections, labels, input, start)[0].1.len(),
            ),
        )],
{
    let limit = input.len() as int;
    let found = lemma_longest_exists(connections, labels, input, start, limit);
    lemma_lexeme_end(connections, labels, input, start, found);
    if found is None {
        assert(!matches_to(connections, labels, input, start, end));
    } else {
        let best = found->0;
        if best < end {
            assert(!matches_to(connections, labels, input, start, end));
        }
    }
}

/// Nothing is lost: the lexemes of the tokens from `start` on, one after
/// the other, are the text from `start` on.
pub proof fn lemma_tokens_cover(
    connections: Seq<Connection>,
    labels: Seq<Option<Seq<char>>>,
    input: Seq<char>,
    start: int,
)
    requires
        0 <= start <= input.len(),
    ensures
        lexemes(tokens(connections, labels, input, start)) == input.subrange(
            start,
            input.len() as int,
        ),
    decreases input.len() - start,
{
    let all = tokens(connections, labels, input, start);
    if start < input.len() {
        match lexeme_end(connections, labels, input, start) {
            Some(end) => {
                let limit = input.len() as int;
                assert(longest(connections, labels, input, start, limit, Some(end)));
                lemma_tokens_cover(connections, labels, input, end);
                assert(all.drop_first() =~= tokens(connections, labels, input, end));
                assert(lexemes(all) =~= input.subrange(start, input.len() as int));
            },
            None => {
                lemma_tokens_cover(connections, labels, input, start + 1);
                assert(all.drop_first() =~= tokens(connections, labels, input, start + 1));
                assert(lexemes(all) =~= input.subrange(start, input.len() as int));
            },
        }
    } else {
        assert(lexemes(all) =~= input.subrange(start, input.len() as int));
    }
}

/// The text is cut at `cuts` into lexemes, each the longest that starts at
/// its place: the cuts go from the start of the text to its end.
pub open spec fn cut_at_longest(
    connections: Seq<Connection>,
    labels: Seq<Option<Seq<char>>>,
    input: Seq<char>,
    cuts: Seq<int>,
) -> bool {
    &&& cuts.len() > 0
    &&& cuts[0] == 0
    &&& cuts[cuts.len() - 1] == input.len()
    &&& forall|i: int| 0 <= i < cuts.len() ==> 0 <= #[trigger] cuts[i]
    &&& forall|i: int, j: int|
        0 <= i && j == i + 1 && j < cuts.len() ==> longest(
            connections,
            labels,
            input,
            #[trigger] cuts[i],
            input.len() as int,
            Some(#[trigger] cuts[j]),
        )
}

/// The lexemes between the cuts from the cut `k` on, each with the name
/// that the automaton gives it.
pub open spec fn pieces(
    connections: Seq<Connection>,
    labels: Seq<Option<Seq<char>>>,
    input: Seq<char>,
    cuts: Seq<int>,
    k: int,
) -> Seq<(Seq<char>, Seq<char>)> {
    Seq::new(
        (cuts.len() - 1 - k) as nat,
        |i: int|
            (
                labels[run(connections, word(input, cuts[k + i], cuts[k + i + 1]))]->0,
                input.subrange(cuts[k + i], cuts[k + i + 1]),
            ),
    )
}

/// A text that is made of lexemes, each the longest that starts at its
/// place, is read as these lexemes.
pub proof fn lemma_round_trip(
    connections: Seq<Connection>,
    labels: Seq<Option<Seq<char>>>,
    input: Seq<char>,
    cuts: Seq<int>,
    k: int,
)
    requires
        cut_at_longest(connections, labels, input, cuts),
        0 <= k < cuts.len(),
    ensures
        tokens(connections, labels, input, cuts[k]) == pieces(connections, labels, input, cuts, k),
    decreases cuts.len() - k,
{
    let limit = input.len() as int;
    let all = tokens(connections, labels, input, cuts[k]);
    let want = pieces(connections, labels, input, cuts, k);
    if k == cuts.len() - 1 {
        assert(all =~= want);
    } else {
        let start = cuts[k];
        let end = cuts[k + 1];
        assert(longest(connections, labels, input, start, limit, Some(end)));
        lemma_lexeme_end(connections, labels, input, start, Some(end));
        lemma_round_trip(connections, labels, input, cuts, k + 1);
        let rest = pieces(connections, labels, input, cuts, k + 1);
        assert(want =~= seq![want[0]] + rest);
        assert(matches_to(connections, labels, input, start, end));
        assert(all == seq![want[0]] + tokens(connections, labels, input, end));
    }
}

/// The tokens as values to reason about.
pub open spec fn token_views(list: Seq<(String, String)>) -> Seq<(Seq<char>, Seq<char>)> {
    Seq::new(list.len(), |i: int| (list[i].0@, list[i].1@))
}

impl Lexer {
    /// What stands at the position `start` of `input`: the longest lexeme
    /// that starts there; an error of one character where no lexeme starts
    /// there; the end of the text.
    pub fn next_token(&self, input: &Vec<char>, start: usize) -> (token: Token)
        requires
            start <= input@.len(),
        ensures
            match token {
                Token::Lexeme { state, end } => start < end <= input@.len() && lexeme_end(
                    self.connections(),
                    self.states(),
                    input@,
                    start as int,
                ) == Some(end as int) && state == run(
                    self.connections(),
                    word(input@, start as int, end as int),
                ) && accepting(self.states(), state as int),
                Token::Error { end } => start < input@.len() && end == start + 1 && lexeme_end(
                    self.connections(),
                    self.states(),
                    input@,
                    start as int,
                ) is None,
                Token::Eof => start == input@.len(),
            },
    {
        if start >= input.len() {
            return Token::Eof;
        }
        match self.longest_match(input, start) {
            Some((state, end)) => {
                proof {
                    lemma_lexeme_end(
                        self.connections(),
                        self.states(),
                        input@,
                        start as int,
                        Some(end as int),
                    );
                }
                Token::Lexeme { state, end }
            },
            None => {
                proof {
                    lemma_lexeme_end(self.connections(), self.states(), input@, start as int, None);
                }
                Token::Error { end: start + 1 }
            },
        }
    }

    /// The kind of a token: the name of the rule that matches a lexeme,
    /// `_ERR` for an error and `_EOF` for the end of the text.
    pub fn kind(&self, token: Token) -> (kind: String)
        ensures
            kind@ == match token {
                Token::Lexeme { state, .. } => if accepting(self.states(), state as int) {
                    self.states()[state as int]->0
                } else {
                    error_kind()
                },
                Token::Error { .. } => error_kind(),
                Token::Eof => eof_kind(),
            },
    {
        match token {
            Token::Lexeme { state, .. } => match self.accepted(state) {
                Some(name) => name.clone(),
                None => "_ERR".to_owned(),
            },
            Token::Error { .. } => "_ERR".to_owned(),
            Token::Eof => "_EOF".to_owned(),
        }
    }

    /// Cuts `text` into tokens, each with its kind and its lexeme: at each
    /// position the longest lexeme that a rule matches, under that rule's
    /// name; where no lexeme starts, one character under the kind `_ERR`.
    /// The lexemes, one after the other, are the text.
    pub fn tokenize(&self, text: &str) -> (list: Vec<(String, String)>)
        ensures
            token_views(list@) == tokens(self.connections(), self.states(), text@, 0),
            lexemes(token_views(list@)) == text@,
    {
        let input = to_chars(text);
        let ghost conns = self.connections();
        let ghost labels = self.states();
        let ghost all = tokens(conns, labels, input@, 0);
        let mut list: Vec<(String, String)> = Vec::new();
        let mut pos: usize = 0;
        assert(token_views(list@) + tokens(conns, labels, input@, 0) =~= all);
        while pos < input.len()
            invariant
                pos <= input@.len(),
                conns == self.connections(),
                labels == self.states(),
                token_views(list@) + tokens(conns, labels, input@, pos as int) == all,
            decreases input@.len() - pos,
        {
            let ghost before = token_views(list@);
            let ghost rest = tokens(conns, labels, input@, pos as int);
            let token = self.next_token(&input, pos);
            match token {
                Token::Lexeme { end, .. } => {
                    list.push((self.kind(token), text_of(&input, pos, end)));
                    pos = end;
                },
                Token::Error { end } => {
                    list.push((self.kind(token), text_of(&input, pos, end)));
                    pos = end;
                },
                Token::Eof => {},
            }
            proof {
                assert(token_views(list@) =~= before.push(rest[0]));
                assert(before.push(rest[0]) + rest.drop_first() =~= before + rest);
                assert(rest.drop_first() =~= tokens(conns, labels, input@, pos as int));
            }
        }
        proof {
            assert(tokens(conns, labels, input@, pos as int) =~= Seq::empty());
            assert(token_views(list@) =~= all);
            lemma_tokens_cover(conns, labels, input@, 0);
            assert(input@.subrange(0, input@.len() as int) =~= input@);
        }
        list
    }
}

} // verus!
