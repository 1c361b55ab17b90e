use vstd::prelude::*;

verus! {

/// How many times a token may occur.
#[derive(Clone, Copy, Debug, PartialEq, Eq, Structural)]
pub enum Quantifier {
    ExactlyOne,
    ZeroOrOne,
    ZeroOrMore,
}

/// The mathematical model of a parsed token.
pub enum Token {
    Literal(Quantifier, char),
    Wildcard(Quantifier),
    Group(Quantifier, Seq<Token>),
}

impl Token {
    /// The quantifier of this token.
    pub open spec fn quantifier(self) -> Quantifier {
        match self {
            Token::Literal(q, _) => q,
            Token::Wildcard(q) => q,
            Token::Group(q, _) => q,
        }
    }

    /// This token with its quantifier replaced by `q`.
    pub open spec fn with_quantifier(self, q: Quantifier) -> Token {
        match self {
            Token::Literal(_, c) => Token::Literal(q, c),
            Token::Wildcard(_) => Token::Wildcard(q),
            Token::Group(_, children) => Token::Group(q, children),
        }
    }
}

/// A parsed token: a literal character, the wildcard `.`, or a parenthesised group,
/// each with its quantifier.
#[derive(Debug)]
pub enum State {
    Wildcard(Quantifier),
    GroupElement(Quantifier, Vec<State>),
    Element(Quantifier, char),
}

/// The model of a sequence of tokens.
pub open spec fn tokens_of(states: Seq<State>) -> Seq<Token>
    decreases states,
{
    if states.len() == 0 {
        Seq::empty()
    } else {
        tokens_of(states.subrange(0, states.len() - 1)).push(states[states.len() - 1].token())
    }
}

impl State {
    /// The model of this token.
    pub open spec fn token(self) -> Token
        decreases self,
    {
        match self {
            State::Wildcard(q) => Token::Wildcard(q),
            State::GroupElement(q, states) => Token::Group(q, tokens_of(states@)),
            State::Element(q, c) => Token::Literal(q, c),
        }
    }

    /// The quantifier of this token.
    pub fn quantifier(&self) -> (r: &Quantifier)
        ensures
            *r == self.token().quantifier(),
    {
        match self {
            State::Wildcard(quantifier) => quantifier,
            State::GroupElement(quantifier, _states) => quantifier,
            State::Element(quantifier, _value) => quantifier,
        }
    }

    /// Replaces the quantifier of this token, keeping the rest of it.
    pub fn set_quantifier(&mut self, new_quantifier: Quantifier)
        ensures
            final(self).token() == old(self).token().with_quantifier(new_quantifier),
    {
        match self {
            State::Wildcard(quantifier) => *quantifier = new_quantifier,
            State::GroupElement(quantifier, _states) => *quantifier = new_quantifier,
            State::Element(quantifier, _value) => *quantifier = new_quantifier,
        }
    }
}

/// Compares two tokens by their models.
#[verifier::loop_isolation(false)]
fn same_state(a: &State, b: &State) -> (r: bool)
    ensures
        r == (a.token() == b.token()),
    decreases a,
{
    match (a, b) {
        (State::Wildcard(p), State::Wildcard(q)) => *p == *q,
        (State::Element(p, c), State::Element(q, d)) => *p == *q && *c == *d,
        (State::GroupElement(p, xs), State::GroupElement(q, ys)) => {
            proof {
                lemma_tokens_of_index(xs@);
                lemma_tokens_of_index(ys@);
            }
            if *p != *q || xs.len() != ys.len() {
                return false;
            }
            let mut k: usize = 0;
            while k < xs.len()
                invariant
                    xs.len() == ys.len(),
                    k <= xs.len(),
                    tokens_of(xs@).len() == xs.len(),
                    tokens_of(ys@).len() == ys.len(),
                    forall|i: int| 0 <= i < xs.len() ==> #[trigger] tokens_of(xs@)[i] == xs@[i].token(),
                    forall|i: int| 0 <= i < ys.len() ==> #[trigger] tokens_of(ys@)[i] == ys@[i].token(),
                    forall|i: int| 0 <= i < k ==> xs@[i].token() == ys@[i].token(),
                decreases xs.len() - k,
            {
                if !same_state(&xs[k], &ys[k]) {
                    assert(tokens_of(xs@)[k as int] != tokens_of(ys@)[k as int]);
                    return false;
                }
                k = k + 1;
            }
            assert(tokens_of(xs@) =~= tokens_of(ys@));
            true
        },
        _ => false,
    }
}

/// Copies a token, keeping its model.
#[verifier::loop_isolation(false)]
fn copy_state(s: &State) -> (r: State)
    ensures
        r.token() == s.token(),
    decreases s,
{
    match s {
        State::Wildcard(q) => State::Wildcard(*q),
        State::Element(q, c) => State::Element(*q, *c),
        State::GroupElement(q, xs) => {
            let mut ys: Vec<State> = Vec::new();
            let mut k: usize = 0;
            while k < xs.len()
                invariant
                    k <= xs.len(),
                    ys.len() == k,
                    forall|i: int| 0 <= i < k ==> #[trigger] ys@[i].token() == xs@[i].token(),
                decreases xs.len() - k,
            {
                ys.push(copy_state(&xs[k]));
                k = k + 1;
            }
            proof {
                lemma_tokens_of_index(xs@);
                lemma_tokens_of_index(ys@);
                assert(tokens_of(xs@) =~= tokens_of(ys@));
            }
            State::GroupElement(*q, ys)
        },
    }
}

impl PartialEq for State {
    fn eq(&self, other: &State) -> (r: bool) {
        same_state(self, other)
    }
}

impl vstd::std_specs::cmp::PartialEqSpecImpl for State {
    open spec fn obeys_eq_spec() -> bool {
        true
    }

    open spec fn eq_spec(&self, other: &State) -> bool {
        self.token() == other.token()
    }
}

impl Clone for State {
    fn clone(&self) -> (r: State)
        ensures
            r.token() == self.token(),
    {
        copy_state(self)
    }
}

/// Why a pattern was rejected.
#[derive(Clone, Copy, Debug, PartialEq, Eq, Structural)]
pub enum ParseError {
    /// A quantifier with no element before it: at the start, or right after `(`.
    UnexpectedQuantifier,
    /// A quantifier after an element that already has one.
    RepeatedQuantifier,
    /// A `)` with no open group.
    NoGroupToClose,
    /// A `\` at the end of the pattern, with nothing to escape.
    BadEscapeChar,
    /// A `(` that is never closed.
    UnclosedGroup,
}

impl ParseError {
    /// A human-readable explanation of the error.
    pub fn description(&self) -> (r: &'static str)
        ensures
            *self == ParseError::UnexpectedQuantifier ==> r@ == "Regex should not start from the quantifier"@,
            *self == ParseError::RepeatedQuantifier ==> r@ == "Quantifier must follow an unquantified element or group"@,
            *self == ParseError::NoGroupToClose ==> r@ == "No group to close"@,
            *self == ParseError::BadEscapeChar ==> r@ == "Bad escape character"@,
            *self == ParseError::UnclosedGroup ==> r@ == "Unclosed group"@,
    {
        match self {
            ParseError::UnexpectedQuantifier => "Regex should not start from the quantifier",
            ParseError::RepeatedQuantifier => "Quantifier must follow an unquantified element or group",
            ParseError::NoGroupToClose => "No group to close",
            ParseError::BadEscapeChar => "Bad escape character",
            ParseError::UnclosedGroup => "Unclosed group",
        }
    }
}

/// The model of a sequence has one token for each state, in order.
pub proof fn lemma_tokens_of_index(states: Seq<State>)
    ensures
        tokens_of(states).len() == states.len(),
        forall|i: int| 0 <= i < states.len() ==> #[trigger] tokens_of(states)[i] == states[i].token(),
    decreases states.len(),
{
    if states.len() > 0 {
        lemma_tokens_of_index(states.subrange(0, states.len() - 1));
    }
}

} // verus!
