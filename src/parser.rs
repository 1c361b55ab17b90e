use vstd::prelude::*;

use crate::models::{tokens_of, lemma_tokens_of_index, ParseError, Quantifier, State, Token};

verus! {

/// Adds `t` at the end of the innermost open level.
///
/// While a pattern is scanned, its partial result is a sequence of levels: the top-level
/// tokens first, then the tokens of each group that is still open, innermost last.
pub open spec fn append_token(levels: Seq<Seq<Token>>, t: Token) -> Seq<Seq<Token>> {
    levels.update(levels.len() - 1, levels.last().push(t))
}

/// `?` and `*`: the last token of the innermost level takes the quantifier `q`.
pub open spec fn quantify_last(levels: Seq<Seq<Token>>, q: Quantifier) -> Result<
    Seq<Seq<Token>>,
    ParseError,
> {
    let cur = levels.last();
    if cur.len() == 0 {
        Err(ParseError::UnexpectedQuantifier)
    } else if cur.last().quantifier() != Quantifier::ExactlyOne {
        Err(ParseError::RepeatedQuantifier)
    } else {
        Ok(levels.update(levels.len() - 1, cur.update(cur.len() - 1, cur.last().with_quantifier(q))))
    }
}

/// `+`: the last token of the innermost level is followed by a copy of it that repeats
/// zero or more times.
pub open spec fn repeat_last(levels: Seq<Seq<Token>>) -> Result<Seq<Seq<Token>>, ParseError> {
    let cur = levels.last();
    if cur.len() == 0 {
        Err(ParseError::UnexpectedQuantifier)
    } else if cur.last().quantifier() != Quantifier::ExactlyOne {
        Err(ParseError::RepeatedQuantifier)
    } else {
        Ok(append_token(levels, cur.last().with_quantifier(Quantifier::ZeroOrMore)))
    }
}

/// `)`: the innermost level becomes a group token of the level around it.
pub open spec fn close_group(levels: Seq<Seq<Token>>) -> Result<Seq<Seq<Token>>, ParseError> {
    if levels.len() < 2 {
        Err(ParseError::NoGroupToClose)
    } else {
        Ok(append_token(levels.drop_last(), Token::Group(Quantifier::ExactlyOne, levels.last())))
    }
}

/// The effect of one pattern character other than `\`.
pub open spec fn apply_char(levels: Seq<Seq<Token>>, c: char) -> Result<
    Seq<Seq<Token>>,
    ParseError,
> {
    if c == '.' {
        Ok(append_token(levels, Token::Wildcard(Quantifier::ExactlyOne)))
    } else if c == '?' {
        quantify_last(levels, Quantifier::ZeroOrOne)
    } else if c == '*' {
        quantify_last(levels, Quantifier::ZeroOrMore)
    } else if c == '+' {
        repeat_last(levels)
    } else if c == '(' {
        Ok(levels.push(Seq::empty()))
    } else if c == ')' {
        close_group(levels)
    } else {
        Ok(append_token(levels, Token::Literal(Quantifier::ExactlyOne, c)))
    }
}

/// The end of the pattern: every group must have been closed.
pub open spec fn finish(levels: Seq<Seq<Token>>) -> Result<Seq<Token>, ParseError> {
    if levels.len() == 1 {
        Ok(levels[0])
    } else {
        Err(ParseError::UnclosedGroup)
    }
}

/// Scans `rest` left to right from the partial result `levels`, stopping at the first error.
/// A `\` makes the character after it a literal.
pub open spec fn scan(levels: Seq<Seq<Token>>, rest: Seq<char>) -> Result<Seq<Token>, ParseError>
    decreases rest.len(),
{
    if rest.len() == 0 {
        finish(levels)
    } else if rest[0] == '\\' {
        if rest.len() < 2 {
            Err(ParseError::BadEscapeChar)
        } else {
            scan(
                append_token(levels, Token::Literal(Quantifier::ExactlyOne, rest[1])),
                rest.subrange(2, rest.len() as int),
            )
        }
    } else {
        match apply_char(levels, rest[0]) {
            Ok(next) => scan(next, rest.subrange(1, rest.len() as int)),
            Err(e) => Err(e),
        }
    }
}

/// The levels before any character has been read.
pub open spec fn no_levels() -> Seq<Seq<Token>> {
    seq![Seq::empty()]
}

/// The tokens of a whole pattern, or the first error in it.
pub open spec fn parse_pattern(pattern: Seq<char>) -> Result<Seq<Token>, ParseError> {
    scan(no_levels(), pattern)
}

/// The model of a parse result.
pub open spec fn parsed(r: Result<Vec<State>, ParseError>) -> Result<Seq<Token>, ParseError> {
    match r {
        Ok(states) => Ok(tokens_of(states@)),
        Err(e) => Err(e),
    }
}

/// What the parser's stack holds: a finished token, or the opening of a group.
enum StackItem {
    State(State),
    GroupOpen,
}

/// The levels that a stack of finished tokens and group openings stands for.
spec fn levels_of(items: Seq<StackItem>) -> Seq<Seq<Token>>
    decreases items.len(),
{
    if items.len() == 0 {
        no_levels()
    } else {
        let prev = levels_of(items.drop_last());
        match items.last() {
            StackItem::State(s) => append_token(prev, s.token()),
            StackItem::GroupOpen => prev.push(Seq::empty()),
        }
    }
}

spec fn items_of(states: Seq<State>) -> Seq<StackItem> {
    states.map_values(|s: State| StackItem::State(s))
}

proof fn lemma_levels_nonempty(items: Seq<StackItem>)
    ensures
        levels_of(items).len() >= 1,
    decreases items.len(),
{
    if items.len() > 0 {
        lemma_levels_nonempty(items.drop_last());
    }
}

/// Pushing finished tokens extends the innermost level.
proof fn lemma_levels_append_states(prefix: Seq<StackItem>, states: Seq<State>)
    ensures
        levels_of(prefix + items_of(states)) == levels_of(prefix).update(
            levels_of(prefix).len() - 1,
            levels_of(prefix).last() + tokens_of(states),
        ),
    decreases states.len(),
{
    lemma_levels_nonempty(prefix);
    let l = levels_of(prefix);
    if states.len() == 0 {
        assert(prefix + items_of(states) =~= prefix);
        assert(l.last() + tokens_of(states) =~= l.last());
        assert(l.update(l.len() - 1, l.last()) =~= l);
    } else {
        let init = states.subrange(0, states.len() - 1);
        lemma_levels_append_states(prefix, init);
        let whole = prefix + items_of(states);
        assert(whole.drop_last() =~= prefix + items_of(init));
        assert(whole.last() == StackItem::State(states[states.len() - 1]));
        assert(l.last() + tokens_of(states) =~= (l.last() + tokens_of(init)).push(
            states[states.len() - 1].token(),
        ));
        assert(levels_of(whole) =~= l.update(l.len() - 1, l.last() + tokens_of(states)));
    }
}

proof fn lemma_push_state(items: Seq<StackItem>, s: State)
    ensures
        levels_of(items.push(StackItem::State(s))) == append_token(levels_of(items), s.token()),
{
    assert(items.push(StackItem::State(s)).drop_last() =~= items);
}

proof fn lemma_literal_token(c: char)
    ensures
        State::Element(Quantifier::ExactlyOne, c).token() == Token::Literal(Quantifier::ExactlyOne, c),
{
}

proof fn lemma_push_open(items: Seq<StackItem>)
    ensures
        levels_of(items.push(StackItem::GroupOpen)) == levels_of(items).push(Seq::empty()),
{
    assert(items.push(StackItem::GroupOpen).drop_last() =~= items);
}

/// A stack without a group opening stands for the top level alone.
proof fn lemma_levels_without_open_group(items: Seq<StackItem>)
    requires
        forall|i: int| 0 <= i < items.len() ==> !(#[trigger] items[i] is GroupOpen),
    ensures
        levels_of(items).len() == 1,
    decreases items.len(),
{
    if items.len() > 0 {
        lemma_levels_without_open_group(items.drop_last());
        assert(!(items[items.len() - 1] is GroupOpen));
    }
}

/// A stack that holds a group opening stands for more than one level.
proof fn lemma_levels_open_group(items: Seq<StackItem>, j: int)
    requires
        0 <= j < items.len(),
        items[j] is GroupOpen,
    ensures
        levels_of(items).len() >= 2,
    decreases items.len(),
{
    lemma_levels_nonempty(items.drop_last());
    if j < items.len() - 1 {
        lemma_levels_open_group(items.drop_last(), j);
    }
}

/// Turns the stack left at the end of a pattern into its top-level tokens.
fn close_all(items: Vec<StackItem>) -> (r: Result<Vec<State>, ParseError>)
    ensures
        parsed(r) == finish(levels_of(items@)),
{
    let ghost all = items@;
    let mut out: Vec<State> = Vec::new();
    for item in it: items
        invariant
            it.seq() == all,
            items_of(out@) == all.take(it.index()),
    {
        match item {
            StackItem::State(s) => {
                assert(all[it.index()] == StackItem::State(s));
                assert(items_of(out@).len() == it.index());
                out.push(s);
                assert(items_of(out@) =~= all.take(it.index() + 1));
            },
            StackItem::GroupOpen => {
                proof {
                    lemma_levels_open_group(all, it.index());
                }
                return Err(ParseError::UnclosedGroup);
            },
        }
    }
    proof {
        lemma_levels_append_states(Seq::empty(), out@);
        assert(Seq::<StackItem>::empty() + items_of(out@) =~= all);
        assert(no_levels().update(0, Seq::<Token>::empty() + tokens_of(out@))[0] =~= tokens_of(out@));
    }
    Ok(out)
}

/// Reads a pattern one character at a time and builds its tokens.
pub struct Parser {
    chars: Vec<char>,
    pos: usize,
    stack: Vec<StackItem>,
}

impl Parser {
    /// The pattern characters not read yet.
    pub closed spec fn rest(self) -> Seq<char> {
        if self.pos <= self.chars.len() {
            self.chars@.subrange(self.pos as int, self.chars@.len() as int)
        } else {
            Seq::empty()
        }
    }

    /// The partial result of what has been read.
    pub closed spec fn pending(self) -> Seq<Seq<Token>> {
        levels_of(self.stack@)
    }

    /// A parser for the pattern `re`, with nothing read yet.
    pub fn new(re: &str) -> (p: Parser)
        ensures
            p.rest() == re@,
            p.pending() == no_levels(),
    {
        let mut chars: Vec<char> = Vec::new();
        for c in it: re.chars()
            invariant
                chars@ == it.seq().take(it.index()),
        {
            chars.push(c);
        }
        assert(chars@ =~= re@);
        let p = Parser { chars, pos: 0, stack: Vec::new() };
        assert(p.rest() =~= chars@);
        p
    }

    /// Parses the characters not read yet and returns their top-level tokens, or the first
    /// error. Afterwards nothing is left to read.
    pub fn parse(&mut self) -> (r: Result<Vec<State>, ParseError>)
        ensures
            parsed(r) == scan(old(self).pending(), old(self).rest()),
            final(self).rest() == Seq::<char>::empty(),
            final(self).pending() == no_levels(),
    {
        let outcome = self.consume();
        let mut stack: Vec<StackItem> = Vec::new();
        std::mem::swap(&mut self.stack, &mut stack);
        self.pos = self.chars.len();
        assert(self.rest() =~= Seq::<char>::empty());
        match outcome {
            Ok(()) => close_all(stack),
            Err(e) => Err(e),
        }
    }

    /// `?` and `*`.
    fn handle_base_quantifiers(&mut self, new_quantifier: Quantifier) -> (r: Result<(), ParseError>)
        ensures
            final(self).chars == old(self).chars,
            final(self).pos == old(self).pos,
            match quantify_last(old(self).pending(), new_quantifier) {
                Ok(levels) => r is Ok && final(self).pending() == levels,
                Err(e) => r == Err::<(), ParseError>(e) && final(self).pending() == old(self).pending(),
            },
    {
        let ghost items = self.stack@;
        proof {
            lemma_levels_nonempty(items);
        }
        match self.stack.pop() {
            Some(StackItem::State(mut token)) => {
                proof {
                    assert(items.drop_last() =~= self.stack@);
                    lemma_levels_nonempty(self.stack@);
                }
                if *token.quantifier() != Quantifier::ExactlyOne {
                    self.stack.push(StackItem::State(token));
                    assert(self.stack@ =~= items);
                    return Err(ParseError::RepeatedQuantifier);
                }
                token.set_quantifier(new_quantifier);
                self.stack.push(StackItem::State(token));
                proof {
                    let prev = levels_of(items.drop_last());
                    assert(self.stack@.drop_last() =~= items.drop_last());
                    assert(levels_of(items).last().update(levels_of(items).last().len() - 1,
                        token.token()) =~= prev.last().push(token.token()));
                    assert(self.pending() =~= quantify_last(levels_of(items), new_quantifier)->Ok_0);
                }
                Ok(())
            },
            Some(StackItem::GroupOpen) => {
                self.stack.push(StackItem::GroupOpen);
                assert(self.stack@ =~= items);
                Err(ParseError::UnexpectedQuantifier)
            },
            None => Err(ParseError::UnexpectedQuantifier),
        }
    }

    /// Reads the whole pattern, stopping at the first error.
    fn consume(&mut self) -> (r: Result<(), ParseError>)
        ensures
            match r {
                Ok(_) => scan(old(self).pending(), old(self).rest()) == finish(final(self).pending()),
                Err(e) => scan(old(self).pending(), old(self).rest()) == Err::<Seq<Token>, ParseError>(e),
            },
    {
        while self.pos < self.chars.len()
            invariant
                scan(old(self).pending(), old(self).rest()) == scan(self.pending(), self.rest()),
            decreases self.chars.len() - self.pos,
        {
            let ghost rest = self.rest();
            let ghost items = self.stack@;
            proof {
                lemma_levels_nonempty(items);
                assert(rest.subrange(1, rest.len() as int) =~= self.chars@.subrange(
                    self.pos + 1,
                    self.chars@.len() as int,
                ));
            }
            let c = self.chars[self.pos];
            assert(rest[0] == c);
            self.pos = self.pos + 1;
            assert(self.rest() =~= rest.subrange(1, rest.len() as int));
            match c {
                '.' => {
                    let token = State::Wildcard(Quantifier::ExactlyOne);
                    proof {
                        lemma_push_state(items, token);
                    }
                    self.stack.push(StackItem::State(token));
                },
                '?' => {
                    if let Err(e) = self.handle_base_quantifiers(Quantifier::ZeroOrOne) {
                        return Err(e);
                    }
                },
                '*' => {
                    if let Err(e) = self.handle_base_quantifiers(Quantifier::ZeroOrMore) {
                        return Err(e);
                    }
                },
                '+' => {
                    if let Err(e) = self.handle_plus_quantifier() {
                        return Err(e);
                    }
                },
                '(' => {
                    proof {
                        lemma_push_open(items);
                    }
                    self.stack.push(StackItem::GroupOpen);
                },
                ')' => {
                    if let Err(e) = self.handle_group_close() {
                        return Err(e);
                    }
                },
                '\\' => {
                    if self.pos < self.chars.len() {
                        let token = State::Element(Quantifier::ExactlyOne, self.chars[self.pos]);
                        proof {
                            assert(rest[1] == self.chars@[self.pos as int]);
                            lemma_literal_token(rest[1]);
                            assert(rest.subrange(2, rest.len() as int) =~= self.chars@.subrange(
                                self.pos + 1,
                                self.chars@.len() as int,
                            ));
                            lemma_push_state(items, token);
                        }
                        self.pos = self.pos + 1;
                        assert(self.rest() =~= rest.subrange(2, rest.len() as int));
                        self.stack.push(StackItem::State(token));
                    } else {
                        return Err(ParseError::BadEscapeChar);
                    }
                },
                _ => {
                    let token = State::Element(Quantifier::ExactlyOne, c);
                    proof {
                        lemma_literal_token(c);
                        lemma_push_state(items, token);
                    }
                    self.stack.push(StackItem::State(token));
                },
            }
        }
        assert(self.rest() =~= Seq::<char>::empty());
        Ok(())
    }

    /// `)`: the tokens since the innermost open `(` become one group.
    fn handle_group_close(&mut self) -> (r: Result<(), ParseError>)
        ensures
            final(self).chars == old(self).chars,
            final(self).pos == old(self).pos,
            match close_group(old(self).pending()) {
                Ok(levels) => r is Ok && final(self).pending() == levels,
                Err(e) => r == Err::<(), ParseError>(e) && final(self).pending() == old(self).pending(),
            },
    {
        let ghost items = self.stack@;
        let mut open: usize = self.stack.len();
        while open > 0 && !matches!(self.stack[open - 1], StackItem::GroupOpen)
            invariant
                open <= self.stack.len(),
                forall|i: int| open <= i < self.stack.len() ==> !(#[trigger] self.stack@[i] is GroupOpen),
            decreases open,
        {
            open = open - 1;
        }
        if open == 0 {
            proof {
                lemma_levels_without_open_group(items);
            }
            return Err(ParseError::NoGroupToClose);
        }
        let mut group_tokens: Vec<State> = Vec::new();
        loop
            invariant_except_break
                items == self.stack@ + items_of(group_tokens@),
                items == old(self).stack@,
                self.chars == old(self).chars,
                self.pos == old(self).pos,
                1 <= open <= self.stack.len(),
                self.stack@[open - 1] is GroupOpen,
            ensures
                self.chars == old(self).chars,
                self.pos == old(self).pos,
                close_group(levels_of(items)) == Ok::<Seq<Seq<Token>>, ParseError>(self.pending()),
            decreases self.stack.len(),
        {
            let ghost before = self.stack@;
            match self.stack.pop() {
                Some(StackItem::State(token)) => {
                    group_tokens.insert(0, token);
                    assert(items =~= self.stack@ + items_of(group_tokens@));
                },
                Some(StackItem::GroupOpen) => {
                    let ghost outer = self.stack@;
                    proof {
                        assert(before =~= outer.push(StackItem::GroupOpen));
                        lemma_push_open(outer);
                        lemma_levels_append_states(outer.push(StackItem::GroupOpen), group_tokens@);
                        lemma_levels_nonempty(outer);
                        assert(levels_of(items).drop_last() =~= levels_of(outer));
                        assert(levels_of(items).last() =~= tokens_of(group_tokens@));
                    }
                    let group = State::GroupElement(Quantifier::ExactlyOne, group_tokens);
                    proof {
                        lemma_push_state(outer, group);
                    }
                    self.stack.push(StackItem::State(group));
                    break ;
                },
                None => {
                    return Err(ParseError::NoGroupToClose);
                },
            }
        }
        Ok(())
    }

    /// `+`.
    fn handle_plus_quantifier(&mut self) -> (r: Result<(), ParseError>)
        ensures
            final(self).chars == old(self).chars,
            final(self).pos == old(self).pos,
            match repeat_last(old(self).pending()) {
                Ok(levels) => r is Ok && final(self).pending() == levels,
                Err(e) => r == Err::<(), ParseError>(e) && final(self).pending() == old(self).pending(),
            },
    {
        let ghost items = self.stack@;
        proof {
            lemma_levels_nonempty(items);
        }
        let n = self.stack.len();
        if n == 0 {
            return Err(ParseError::UnexpectedQuantifier);
        }
        match &self.stack[n - 1] {
            StackItem::State(token) => {
                proof {
                    lemma_levels_nonempty(items.drop_last());
                }
                if *token.quantifier() != Quantifier::ExactlyOne {
                    return Err(ParseError::RepeatedQuantifier);
                }
                let mut one_more = token.clone();
                one_more.set_quantifier(Quantifier::ZeroOrMore);
                self.stack.push(StackItem::State(one_more));
                proof {
                    assert(self.stack@.drop_last() =~= items);
                }
                Ok(())
            },
            StackItem::GroupOpen => Err(ParseError::UnexpectedQuantifier),
        }
    }
}

/// A character with a meaning of its own in a pattern, other than the wildcard.
pub open spec fn is_operator(c: char) -> bool {
    c == '?' || c == '*' || c == '+' || c == '(' || c == ')' || c == '\\'
}

/// The token that a character without an operator meaning stands for.
pub open spec fn plain_token(c: char) -> Token {
    if c == '.' {
        Token::Wildcard(Quantifier::ExactlyOne)
    } else {
        Token::Literal(Quantifier::ExactlyOne, c)
    }
}

proof fn lemma_scan_plain(prefix: Seq<Token>, pattern: Seq<char>)
    requires
        forall|i: int| 0 <= i < pattern.len() ==> !is_operator(#[trigger] pattern[i]),
    ensures
        scan(seq![prefix], pattern) == Ok::<Seq<Token>, ParseError>(
            prefix + Seq::new(pattern.len(), |i: int| plain_token(pattern[i])),
        ),
    decreases pattern.len(),
{
    let all = Seq::new(pattern.len(), |i: int| plain_token(pattern[i]));
    if pattern.len() == 0 {
        assert(prefix + all =~= prefix);
    } else {
        let c = pattern[0];
        let tail = pattern.subrange(1, pattern.len() as int);
        let t = plain_token(c);
        assert(!is_operator(c));
        assert(append_token(seq![prefix], t) =~= seq![prefix.push(t)]);
        assert(apply_char(seq![prefix], c) == Ok::<Seq<Seq<Token>>, ParseError>(seq![prefix.push(t)]));
        assert forall|i: int| 0 <= i < tail.len() implies !is_operator(#[trigger] tail[i]) by {
            assert(tail[i] == pattern[i + 1]);
        }
        lemma_scan_plain(prefix.push(t), tail);
        assert(prefix.push(t) + Seq::new(tail.len(), |i: int| plain_token(tail[i])) =~= prefix + all);
    }
}

/// A pattern without quantifiers, groups or escapes parses to one token per character, in
/// order: the wildcard for `.`, a literal for any other character, each matched exactly once.
pub proof fn lemma_plain_pattern_tokens(pattern: Seq<char>)
    requires
        forall|i: int| 0 <= i < pattern.len() ==> !is_operator(#[trigger] pattern[i]),
    ensures
        parse_pattern(pattern) is Ok,
        parse_pattern(pattern)->Ok_0.len() == pattern.len(),
        forall|i: int|
            0 <= i < pattern.len() ==> #[trigger] parse_pattern(pattern)->Ok_0[i] == plain_token(
                pattern[i],
            ),
{
    lemma_scan_plain(Seq::empty(), pattern);
    assert(no_levels() == seq![Seq::<Token>::empty()]);
    assert(Seq::<Token>::empty() + Seq::new(pattern.len(), |i: int| plain_token(pattern[i]))
        =~= Seq::new(pattern.len(), |i: int| plain_token(pattern[i])));
}

/// A pattern that starts with `)` is rejected: there is no group to close.
pub proof fn lemma_leading_close_rejected(pattern: Seq<char>)
    requires
        pattern.len() > 0,
        pattern[0] == ')',
    ensures
        parse_pattern(pattern) == Err::<Seq<Token>, ParseError>(ParseError::NoGroupToClose),
{
}

/// Parses a whole pattern into its top-level tokens.
pub fn parse(pattern: &str) -> (r: Result<Vec<State>, ParseError>)
    ensures
        parsed(r) == parse_pattern(pattern@),
{
    let mut parser = Parser::new(pattern);
    parser.parse()
}

} // verus!
