use vstd::prelude::*;

use crate::models::{tokens_of, lemma_tokens_of_index, Quantifier, State, Token};

verus! {

/// Where a sequence of tokens ends when it is matched from position `i` of `input`,
/// or `None` when it does not match there.
///
/// Tokens are matched left to right; each takes what its own quantifier allows, greedily,
/// and nothing it took is given back to a later token.
pub open spec fn seq_end(tokens: Seq<Token>, input: Seq<char>, i: nat) -> Option<nat>
    decreases tokens, 0int, 0int,
{
    if tokens.len() == 0 {
        Some(i)
    } else {
        match token_end(tokens[0], input, i) {
            Some(j) => seq_end(tokens.subrange(1, tokens.len() as int), input, j),
            None => None,
        }
    }
}

/// Where one occurrence of `t` ends when matched from position `i`, ignoring its quantifier.
pub open spec fn once_end(t: Token, input: Seq<char>, i: nat) -> Option<nat>
    decreases t, 0int, 0int,
{
    match t {
        Token::Literal(_, c) => if i < input.len() && input[i as int] == c {
            Some(i + 1)
        } else {
            None
        },
        Token::Wildcard(_) => if i < input.len() {
            Some(i + 1)
        } else {
            None
        },
        Token::Group(_, children) => seq_end(children, input, i),
    }
}

/// Where `t` ends when matched from position `i`, as its quantifier allows.
///
/// A repeated token stops at the first occurrence that fails, that consumes nothing,
/// or that would pass the end of the input.
pub open spec fn token_end(t: Token, input: Seq<char>, i: nat) -> Option<nat>
    decreases t, 1int, input.len() - i,
{
    match t.quantifier() {
        Quantifier::ExactlyOne => once_end(t, input, i),
        Quantifier::ZeroOrOne => match once_end(t, input, i) {
            Some(j) => Some(j),
            None => Some(i),
        },
        Quantifier::ZeroOrMore => match once_end(t, input, i) {
            Some(j) => if i < j && j <= input.len() {
                token_end(t, input, j)
            } else {
                Some(i)
            },
            None => Some(i),
        },
    }
}

/// How many characters at the start of `input` the tokens match, or `None` when they do not.
pub open spec fn match_length(tokens: Seq<Token>, input: Seq<char>) -> Option<nat> {
    seq_end(tokens, input, 0)
}

/// The model of an optional position.
pub open spec fn as_position(r: Option<usize>) -> Option<nat> {
    match r {
        Some(j) => Some(j as nat),
        None => None,
    }
}

/// Matches one occurrence of `state` from position `i`.
fn match_once(state: &State, source: &[char], i: usize) -> (r: Option<usize>)
    requires
        i <= source@.len(),
    ensures
        as_position(r) == once_end(state.token(), source@, i as nat),
        r matches Some(j) ==> j <= source@.len(),
    decreases state,
{
    match state {
        State::Wildcard(_) => {
            if i < source.len() {
                Some(i + 1)
            } else {
                None
            }
        },
        State::Element(_, c) => {
            if i < source.len() && source[i] == *c {
                Some(i + 1)
            } else {
                None
            }
        },
        State::GroupElement(_, states) => match_from(states, source, i),
    }
}

/// Matches `states` in order from position `start`, returning where the match ends.
fn match_from(states: &Vec<State>, source: &[char], start: usize) -> (r: Option<usize>)
    requires
        start <= source@.len(),
    ensures
        as_position(r) == seq_end(tokens_of(states@), source@, start as nat),
        r matches Some(j) ==> j <= source@.len(),
    decreases states,
{
    let ghost tokens = tokens_of(states@);
    proof {
        lemma_tokens_of_index(states@);
        assert(tokens.subrange(0, tokens.len() as int) =~= tokens);
    }
    let mut i: usize = start;
    let mut k: usize = 0;
    while k < states.len()
        invariant
            i <= source@.len(),
            k <= states.len(),
            tokens == tokens_of(states@),
            tokens.len() == states.len(),
            forall|n: int| 0 <= n < states.len() ==> #[trigger] tokens[n] == states@[n].token(),
            seq_end(tokens, source@, start as nat) == seq_end(
                tokens.subrange(k as int, tokens.len() as int),
                source@,
                i as nat,
            ),
        decreases states.len() - k,
    {
        let state = &states[k];
        let ghost t = state.token();
        let ghost before = i as nat;
        proof {
            let rest = tokens.subrange(k as int, tokens.len() as int);
            assert(rest[0] == t);
            assert(rest.subrange(1, rest.len() as int) =~= tokens.subrange(
                k + 1,
                tokens.len() as int,
            ));
        }
        match *state.quantifier() {
            Quantifier::ExactlyOne => {
                match match_once(state, source, i) {
                    Some(j) => i = j,
                    None => return None,
                }
            },
            Quantifier::ZeroOrOne => {
                if let Some(j) = match_once(state, source, i) {
                    i = j;
                }
            },
            Quantifier::ZeroOrMore => {
                loop
                    invariant_except_break
                        i <= source@.len(),
                        t.quantifier() == Quantifier::ZeroOrMore,
                        t == state.token(),
                        k < states.len(),
                        *state == states@[k as int],
                        token_end(t, source@, before) == token_end(t, source@, i as nat),
                    ensures
                        i <= source@.len(),
                        token_end(t, source@, before) == Some(i as nat),
                    decreases source@.len() - i,
                {
                    match match_once(state, source, i) {
                        Some(j) => {
                            if i < j {
                                i = j;
                            } else {
                                break ;
                            }
                        },
                        None => break ,
                    }
                }
            },
        }
        assert(token_end(t, source@, before) == Some(i as nat));
        k = k + 1;
    }
    assert(tokens.subrange(k as int, tokens.len() as int).len() == 0);
    Some(i)
}

/// Matches `states` against the start of `source`: whether they match, and how many
/// characters the match consumes (0 when it does not match).
pub fn match_states(states: &Vec<State>, source: &[char]) -> (r: (bool, usize))
    ensures
        r.0 == match_length(tokens_of(states@), source@) is Some,
        r.0 ==> match_length(tokens_of(states@), source@) == Some(r.1 as nat),
        r.1 <= source@.len(),
        !r.0 ==> r.1 == 0,
{
    match match_from(states, source, 0) {
        Some(end) => (true, end),
        None => (false, 0),
    }
}

/// The empty token sequence matches every input, consuming nothing.
pub proof fn lemma_empty_pattern_matches(input: Seq<char>)
    ensures
        match_length(Seq::empty(), input) == Some(0nat),
{
}

} // verus!
