use vstd::prelude::*;
use vstd::string::*;

use crate::error::{ErrorKind, ErrorView};

verus! {

/// Molecule syntax tokens recognised by the lexer.
#[derive(Debug, PartialEq, Eq)]
pub enum Token {
    /// One of `( ) [ ] { }`.
    Bracket(char),
    /// An element symbol: an uppercase letter and the lowercase letters after it.
    Atom(String),
    /// A run of decimal digits, by its value.
    Index(usize),
}

/// Mathematical value of a [`Token`].
pub enum TokenView {
    Bracket(char),
    Atom(Seq<char>),
    Index(nat),
}

impl View for Token {
    type V = TokenView;

    open spec fn view(&self) -> TokenView {
        match *self {
            Token::Bracket(c) => TokenView::Bracket(c),
            Token::Atom(symbol) => TokenView::Atom(symbol@),
            Token::Index(n) => TokenView::Index(n as nat),
        }
    }
}

impl DeepView for Token {
    type V = TokenView;

    open spec fn deep_view(&self) -> TokenView {
        self@
    }
}

impl Clone for Token {
    fn clone(&self) -> (copy: Token)
        ensures
            copy@ == self@,
    {
        match self {
            Token::Bracket(c) => Token::Bracket(*c),
            Token::Atom(symbol) => Token::Atom(symbol.clone()),
            Token::Index(n) => Token::Index(*n),
        }
    }
}

/// An uppercase Latin letter, which starts an atom.
pub open spec fn is_uppercase(c: char) -> bool {
    'A' <= c && c <= 'Z'
}

/// A lowercase Latin letter, which continues an atom.
pub open spec fn is_lowercase(c: char) -> bool {
    'a' <= c && c <= 'z'
}

/// A decimal digit.
pub open spec fn is_digit(c: char) -> bool {
    '0' <= c && c <= '9'
}

/// One of the six bracket characters.
pub open spec fn is_bracket(c: char) -> bool {
    c == '(' || c == ')' || c == '[' || c == ']' || c == '{' || c == '}'
}

/// The value of a decimal digit.
pub open spec fn digit_value(c: char) -> nat
    recommends
        is_digit(c),
{
    (c as int - '0' as int) as nat
}

/// The number of lowercase letters that follow each other in `text` from index `from` on.
pub open spec fn lowercase_run(text: Seq<char>, from: int) -> nat
    decreases text.len() - from,
{
    if 0 <= from < text.len() && is_lowercase(text[from]) {
        1 + lowercase_run(text, from + 1)
    } else {
        0
    }
}

/// The number of digits that follow each other in `text` from index `from` on.
pub open spec fn digit_run(text: Seq<char>, from: int) -> nat
    decreases text.len() - from,
{
    if 0 <= from < text.len() && is_digit(text[from]) {
        1 + digit_run(text, from + 1)
    } else {
        0
    }
}

/// The number that a sequence of digits denotes in base ten.
pub open spec fn decimal(digits: Seq<char>) -> nat
    decreases digits.len(),
{
    if digits.len() == 0 {
        0
    } else {
        decimal(digits.drop_last()) * 10 + digit_value(digits.last())
    }
}

/// How many characters the token that starts at `pos` takes.
pub open spec fn token_len(text: Seq<char>, pos: int) -> nat {
    if is_uppercase(text[pos]) {
        1 + lowercase_run(text, pos + 1)
    } else if is_digit(text[pos]) {
        1 + digit_run(text, pos + 1)
    } else {
        1
    }
}

/// The token that starts at `pos`, or why there is none.
pub open spec fn token_at(text: Seq<char>, pos: int) -> Result<TokenView, ErrorView> {
    let c = text[pos];
    let lexeme = text.subrange(pos, pos + token_len(text, pos));
    if is_uppercase(c) {
        Ok(TokenView::Atom(lexeme))
    } else if is_digit(c) {
        if decimal(lexeme) <= usize::MAX {
            Ok(TokenView::Index(decimal(lexeme)))
        } else {
            Err(ErrorView::Overflow)
        }
    } else if is_bracket(c) {
        Ok(TokenView::Bracket(c))
    } else {
        Err(ErrorView::LexError(c, pos as nat))
    }
}

/// `tokens` followed by what `rest` holds; the error of `rest` where it is one.
pub open spec fn preceded_by(
    tokens: Seq<TokenView>,
    rest: Result<Seq<TokenView>, ErrorView>,
) -> Result<Seq<TokenView>, ErrorView> {
    match rest {
        Ok(more) => Ok(tokens + more),
        Err(e) => Err(e),
    }
}

/// The tokens of `text` from index `pos` to its end, or the first error met on the way.
pub open spec fn tokens_from(text: Seq<char>, pos: int) -> Result<Seq<TokenView>, ErrorView>
    decreases text.len() - pos,
    via tokens_from_terminates
{
    if 0 <= pos < text.len() {
        match token_at(text, pos) {
            Ok(token) => preceded_by(seq![token], tokens_from(text, pos + token_len(text, pos))),
            Err(e) => Err(e),
        }
    } else {
        Ok(Seq::empty())
    }
}

#[via_fn]
proof fn tokens_from_terminates(text: Seq<char>, pos: int) {
    if 0 <= pos < text.len() {
        lemma_token_within_text(text, pos);
    }
}

/// A run of lowercase letters ends within the text.
pub proof fn lemma_lowercase_run_within_text(text: Seq<char>, from: int)
    requires
        0 <= from <= text.len(),
    ensures
        from + lowercase_run(text, from) <= text.len(),
    decreases text.len() - from,
{
    if from < text.len() && is_lowercase(text[from]) {
        lemma_lowercase_run_within_text(text, from + 1);
    }
}

/// A run of digits ends within the text.
pub proof fn lemma_digit_run_within_text(text: Seq<char>, from: int)
    requires
        0 <= from <= text.len(),
    ensures
        from + digit_run(text, from) <= text.len(),
    decreases text.len() - from,
{
    if from < text.len() && is_digit(text[from]) {
        lemma_digit_run_within_text(text, from + 1);
    }
}

/// A token takes at least one character and ends within the text.
pub proof fn lemma_token_within_text(text: Seq<char>, pos: int)
    requires
        0 <= pos < text.len(),
    ensures
        pos < pos + token_len(text, pos) <= text.len(),
{
    lemma_lowercase_run_within_text(text, pos + 1);
    lemma_digit_run_within_text(text, pos + 1);
}

/// The tokens of a whole text.
pub open spec fn tokens_of(text: Seq<char>) -> Result<Seq<TokenView>, ErrorView> {
    tokens_from(text, 0)
}

/// Cutting a digit sequence short never gives a larger number.
pub proof fn lemma_decimal_of_prefix(digits: Seq<char>, len: int)
    requires
        0 <= len <= digits.len(),
    ensures
        decimal(digits.take(len)) <= decimal(digits),
    decreases digits.len(),
{
    if len < digits.len() {
        lemma_decimal_of_prefix(digits.drop_last(), len);
        assert(digits.drop_last().take(len) =~= digits.take(len));
    } else {
        assert(digits.take(len) =~= digits);
    }
}

/// The mathematical value of what [`lex`] returns.
pub open spec fn lexed(r: Result<Vec<Token>, ErrorKind>) -> Result<Seq<TokenView>, ErrorView> {
    match r {
        Ok(tokens) => Ok(tokens.deep_view()),
        Err(e) => Err(e@),
    }
}

/// The characters of `input`, in order.
pub fn chars_of(input: &str) -> (chars: Vec<char>)
    ensures
        chars@ == input@,
{
    let mut chars: Vec<char> = Vec::new();
    let source = input.chars();
    for c in it: source
        invariant
            it.seq() == input@,
            chars@ == it.seq().take(it.index() as int),
    {
        chars.push(c);
    }
    chars
}

/// Lex a string slice into a vector of tokens.
///
/// Returns the tokens of `input` in order, or the first error met from the
/// left: a character that starts no token, or a number too large for `usize`.
pub fn lex(input: &str) -> (r: Result<Vec<Token>, ErrorKind>)
    ensures
        lexed(r) == tokens_of(input@),
{
    let chars = chars_of(input);
    let mut tokens: Vec<Token> = Vec::new();
    let mut pos: usize = 0;
    while pos < chars.len()
        invariant
            chars@ == input@,
            pos <= chars.len(),
            tokens_of(input@) == preceded_by(tokens.deep_view(), tokens_from(input@, pos as int)),
        decreases chars.len() - pos,
    {
        let c = chars[pos];
        let ghost before = tokens.deep_view();
        let ghost start = pos as int;
        proof {
            lemma_token_within_text(input@, start);
        }
        if c >= 'A' && c <= 'Z' {
            let (symbol, end) = lex_atom(input, chars.as_slice(), pos);
            tokens.push(Token::Atom(symbol));
            pos = end;
        } else if c >= '0' && c <= '9' {
            match lex_index(chars.as_slice(), pos) {
                Ok((number, end)) => {
                    tokens.push(Token::Index(number));
                    pos = end;
                },
                Err(e) => {
                    return Err(e);
                },
            }
        } else if c == '(' || c == ')' || c == '[' || c == ']' || c == '{' || c == '}' {
            tokens.push(Token::Bracket(c));
            pos = pos + 1;
        } else {
            return Err(ErrorKind::LexError(c, pos));
        }
        proof {
            let token = token_at(input@, start)->Ok_0;
            assert(tokens.deep_view() =~= before.push(token));
            match tokens_from(input@, pos as int) {
                Ok(more) => {
                    assert(before + (seq![token] + more) =~= before.push(token) + more);
                },
                Err(_) => {},
            }
        }
    }
    proof {
        assert(tokens.deep_view() + Seq::<TokenView>::empty() =~= tokens.deep_view());
    }
    Ok(tokens)
}

/// Lex an atom: the character at `start` and the lowercase letters that follow it.
///
/// Returns the symbol and the index just past it.
pub fn lex_atom(input: &str, chars: &[char], start: usize) -> (r: (String, usize))
    requires
        chars@ == input@,
        start < chars.len(),
    ensures
        r.1 == start + 1 + lowercase_run(input@, start + 1),
        r.0@ == input@.subrange(start as int, r.1 as int),
{
    let mut end: usize = start + 1;
    while end < chars.len() && chars[end] >= 'a' && chars[end] <= 'z'
        invariant
            chars@ == input@,
            start < end <= chars.len(),
            lowercase_run(input@, start + 1) == (end - start - 1) + lowercase_run(
                input@,
                end as int,
            ),
        decreases chars.len() - end,
    {
        end = end + 1;
    }
    (input.substring_char(start, end).to_owned(), end)
}

/// Lex an index: the digit at `start` and the digits that follow it, read in base ten.
///
/// Returns the number and the index just past it, or `Overflow` where the
/// number does not fit in `usize`.
pub fn lex_index(chars: &[char], start: usize) -> (r: Result<(usize, usize), ErrorKind>)
    requires
        start < chars.len(),
        is_digit(chars@[start as int]),
    ensures
        match r {
            Ok((number, end)) => {
                &&& end == start + 1 + digit_run(chars@, start + 1)
                &&& number == decimal(chars@.subrange(start as int, end as int))
            },
            Err(e) => {
                &&& e@ == ErrorView::Overflow
                &&& decimal(
                    chars@.subrange(start as int, start + 1 + digit_run(chars@, start + 1)),
                ) > usize::MAX
            },
        },
{
    let ghost run_end = start + 1 + digit_run(chars@, start + 1);
    let ghost digits = chars@.subrange(start as int, run_end);
    let mut number: usize = digit_of(chars[start]);
    let mut end: usize = start + 1;
    proof {
        lemma_digit_run_within_text(chars@, start + 1);
        assert(chars@.subrange(start as int, end as int).drop_last() =~= Seq::<char>::empty());
        assert(decimal(Seq::<char>::empty()) == 0);
    }
    while end < chars.len() && chars[end] >= '0' && chars[end] <= '9'
        invariant
            start < end <= chars.len(),
            run_end == start + 1 + digit_run(chars@, start + 1),
            run_end <= chars.len(),
            digits == chars@.subrange(start as int, run_end),
            number == decimal(chars@.subrange(start as int, end as int)),
            run_end == end + digit_run(chars@, end as int),
        decreases chars.len() - end,
    {
        let digit = digit_of(chars[end]);
        proof {
            let longer = chars@.subrange(start as int, end + 1);
            assert(longer.drop_last() =~= chars@.subrange(start as int, end as int));
            assert(decimal(longer) == number * 10 + digit);
            assert(digits.take(end + 1 - start) =~= longer);
            lemma_decimal_of_prefix(digits, end + 1 - start);
        }
        let tens = match number.checked_mul(10) {
            Some(tens) => tens,
            None => {
                return Err(ErrorKind::Overflow);
            },
        };
        number = match tens.checked_add(digit) {
            Some(sum) => sum,
            None => {
                return Err(ErrorKind::Overflow);
            },
        };
        end = end + 1;
    }
    Ok((number, end))
}

/// The value of a decimal digit.
fn digit_of(c: char) -> (value: usize)
    requires
        is_digit(c),
    ensures
        value == digit_value(c),
        value <= 9,
{
    (c as u32 - '0' as u32) as usize
}

} // verus!
