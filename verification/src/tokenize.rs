//! The tokenizer: a single left-to-right scan that turns the characters of an
//! expression into its lexical tokens.

use vstd::prelude::*;
use vstd::std_specs::iter::IteratorSpec;
use crate::wrap::{
    lemma_wrap_add,
    lemma_wrap_in_range,
    lemma_wrap_mul,
    lemma_wrapping_add,
    lemma_wrapping_mul,
    wrap,
};

verus! {

/// An atomic lexical unit of an arithmetic expression.
#[derive(Debug, Clone, Copy, PartialEq, Eq, Structural)]
pub enum Token {
    /// A decimal literal, wrapped into 32 bits.
    Number(i32),
    /// `+`
    Plus,
    /// `-`
    Minus,
    /// `*`
    Asterisk,
    /// `/`
    Slash,
    /// `**`
    Power,
    /// `(`
    LParen,
    /// `)`
    RParen,
}

/// The scan met a character outside the accepted alphabet.
#[derive(Debug, Clone, Copy, PartialEq, Eq, Structural)]
pub struct LexError {
    /// The first character of the input that is not accepted.
    pub character: char,
}

/// `c` is one of `0` to `9`.
pub open spec fn is_digit(c: char) -> bool {
    '0' <= c <= '9'
}

/// The value of a decimal digit.
pub open spec fn digit_value(c: char) -> nat
    recommends
        is_digit(c),
{
    (c as nat - '0' as nat) as nat
}

/// The token that a punctuation character stands for when it is read alone.
pub open spec fn punctuation(c: char) -> Option<Token> {
    if c == '+' {
        Some(Token::Plus)
    } else if c == '-' {
        Some(Token::Minus)
    } else if c == '*' {
        Some(Token::Asterisk)
    } else if c == '/' {
        Some(Token::Slash)
    } else if c == '(' {
        Some(Token::LParen)
    } else if c == ')' {
        Some(Token::RParen)
    } else {
        None
    }
}

/// The accepted alphabet: digits, the six punctuation characters and the
/// space.
pub open spec fn is_accepted(c: char) -> bool {
    is_digit(c) || c == ' ' || punctuation(c) is Some
}

/// The pending literal after one more digit: the digits read so far, as an
/// unbounded number.
pub open spec fn push_digit(pending: Option<nat>, c: char) -> nat {
    match pending {
        Some(n) => n * 10 + digit_value(c),
        None => digit_value(c),
    }
}

/// The tokens that a pending literal contributes when an operator or the end
/// of the input closes it.
pub open spec fn flush(pending: Option<nat>) -> Seq<Token> {
    match pending {
        Some(n) => seq![Token::Number(wrap(n as int))],
        None => seq![],
    }
}

/// `tokens` followed by the outcome of scanning the rest.
pub open spec fn emit(tokens: Seq<Token>, rest: Result<Seq<Token>, LexError>) -> Result<
    Seq<Token>,
    LexError,
> {
    match rest {
        Ok(more) => Ok(tokens + more),
        Err(e) => Err(e),
    }
}

/// The outcome of scanning `s` from position `pos` on, with `pending` the
/// literal whose digits were read just before `pos`.
///
/// A digit extends the pending literal and a space leaves it alone. An
/// operator or a closing parenthesis closes it; an opening parenthesis drops
/// it. Two adjacent asterisks are read as one `Power`.
pub open spec fn lex_from(s: Seq<char>, pos: int, pending: Option<nat>) -> Result<
    Seq<Token>,
    LexError,
>
    decreases s.len() - pos,
{
    if pos < 0 || pos >= s.len() {
        Ok(flush(pending))
    } else {
        let c = s[pos];
        if is_digit(c) {
            lex_from(s, pos + 1, Some(push_digit(pending, c)))
        } else if c == ' ' {
            lex_from(s, pos + 1, pending)
        } else if c == '(' {
            emit(seq![Token::LParen], lex_from(s, pos + 1, None))
        } else if c == '*' && pos + 1 < s.len() && s[pos + 1] == '*' {
            emit(flush(pending).push(Token::Power), lex_from(s, pos + 2, None))
        } else {
            match punctuation(c) {
                Some(t) => emit(flush(pending).push(t), lex_from(s, pos + 1, None)),
                None => Err(LexError { character: c }),
            }
        }
    }
}

/// The tokens of `s`, or the first character of `s` that is not accepted.
pub open spec fn lex(s: Seq<char>) -> Result<Seq<Token>, LexError> {
    lex_from(s, 0, None)
}

/// The outcome of a scan, with the token vector taken as a sequence.
pub open spec fn outcome(r: Result<Vec<Token>, LexError>) -> Result<Seq<Token>, LexError> {
    match r {
        Ok(v) => Ok(v@),
        Err(e) => Err(e),
    }
}

/// Every character of `s` before position `n` is accepted.
pub open spec fn accepted_before(s: Seq<char>, n: int) -> bool {
    forall|i: int| 0 <= i < n && i < s.len() ==> is_accepted(#[trigger] s[i])
}

/// A scan fails exactly when some character at or after its start is not
/// accepted, and then reports the first such character. A scan that succeeds
/// yields at most one token per remaining character, plus the pending literal.
pub proof fn lemma_lex_from_outcome(s: Seq<char>, pos: int, pending: Option<nat>)
    requires
        0 <= pos <= s.len(),
    ensures
        match lex_from(s, pos, pending) {
            Ok(tokens) => {
                &&& forall|i: int| pos <= i < s.len() ==> is_accepted(#[trigger] s[i])
                &&& tokens.len() <= s.len() - pos + flush(pending).len()
            },
            Err(e) => exists|k: int|
                {
                    &&& pos <= k < s.len()
                    &&& #[trigger] s[k] == e.character
                    &&& !is_accepted(e.character)
                    &&& forall|i: int| pos <= i < k ==> is_accepted(#[trigger] s[i])
                },
        },
    decreases s.len() - pos,
{
    if pos < s.len() {
        let c = s[pos];
        let (next, carried): (int, Option<nat>) = if is_digit(c) {
            (pos + 1, Some(push_digit(pending, c)))
        } else if c == ' ' {
            (pos + 1, pending)
        } else if c == '*' && pos + 1 < s.len() && s[pos + 1] == '*' {
            (pos + 2, None)
        } else {
            (pos + 1, None)
        };
        if is_accepted(c) {
            lemma_lex_from_outcome(s, next, carried);
            match lex_from(s, next, carried) {
                Ok(_) => {},
                Err(e) => {
                    let k = choose|k: int|
                        {
                            &&& next <= k < s.len()
                            &&& #[trigger] s[k] == e.character
                            &&& !is_accepted(e.character)
                            &&& forall|i: int| next <= i < k ==> is_accepted(#[trigger] s[i])
                        };
                    assert(s[k] == e.character);
                },
            }
        } else {
            assert(s[pos] == c);
        }
    }
}

/// The value of a decimal digit character.
fn digit_of(c: char) -> (d: i32)
    requires
        is_digit(c),
    ensures
        d == digit_value(c),
        0 <= d <= 9,
{
    (c as u32 - '0' as u32) as i32
}

/// Closes the pending literal, if there is one, by appending its token.
fn flush_into(tokens: &mut Vec<Token>, buffer: Option<i32>)
    ensures
        final(tokens)@ == old(tokens)@ + match buffer {
            Some(n) => seq![Token::Number(n)],
            None => seq![],
        },
{
    if let Some(n) = buffer {
        tokens.push(Token::Number(n));
    }
    assert(tokens@ =~= old(tokens)@ + match buffer {
        Some(n) => seq![Token::Number(n)],
        None => seq![],
    });
}

/// The machine accumulator `buffer` holds the pending literal `pending`,
/// wrapped into 32 bits.
spec fn holds(buffer: Option<i32>, pending: Option<nat>) -> bool {
    match pending {
        Some(n) => buffer == Some(wrap(n as int)),
        None => buffer is None,
    }
}

/// Folding one more digit into the wrapped accumulator keeps it equal to the
/// wrapped literal.
proof fn lemma_push_digit_wraps(buffer: Option<i32>, pending: Option<nat>, c: char)
    requires
        holds(buffer, pending),
        is_digit(c),
    ensures
        wrap(
            wrap(
                match buffer {
                    Some(n) => n,
                    None => 0,
                } * 10,
            ) + digit_value(c),
        ) == wrap(push_digit(pending, c) as int),
{
    let d = digit_value(c) as int;
    match pending {
        Some(n) => {
            lemma_wrap_mul(n as int, 10);
            lemma_wrap_add(wrap(n as int) * 10, d);
            lemma_wrap_add(n as int * 10, d);
        },
        None => {
            lemma_wrap_in_range(0);
        },
    }
}

/// Emitting `first` and then `second` is emitting their concatenation.
proof fn lemma_emit_append(
    first: Seq<Token>,
    second: Seq<Token>,
    rest: Result<Seq<Token>, LexError>,
)
    ensures
        emit(first, emit(second, rest)) == emit(first + second, rest),
{
    match rest {
        Ok(more) => {
            assert(first + (second + more) =~= (first + second) + more);
        },
        Err(_) => {},
    }
}

/// Converts an expression into its tokens in one pass over its characters.
///
/// The result is `lex` of the characters: the tokens in the order in which
/// they were met, or an error that names the first character outside the
/// accepted alphabet. Literals wrap around at 32 bits.
pub fn tokenize(s: String) -> (r: Result<Vec<Token>, LexError>)
    ensures
        outcome(r) == lex(s@),
        r is Ok <==> accepted_before(s@, s@.len() as int),
        r matches Ok(tokens) ==> tokens@.len() <= s@.len(),
        r matches Err(e) ==> exists|k: int|
            {
                &&& 0 <= k < s@.len()
                &&& #[trigger] s@[k] == e.character
                &&& !is_accepted(e.character)
                &&& accepted_before(s@, k)
            },
{
    let mut tokens: Vec<Token> = Vec::new();
    let mut buffer: Option<i32> = None;
    let mut chars = s.as_str().chars();
    let mut current = chars.next();
    let ghost mut pos: int = 0;
    let ghost mut pending: Option<nat> = None;
    proof {
        assert(s@.skip(0) =~= s@);
        if s@.len() > 0 {
            assert(s@.drop_first() =~= s@.skip(1));
        }
        match lex_from(s@, 0, None) {
            Ok(more) => {
                assert(tokens@ + more =~= more);
            },
            Err(_) => {},
        }
    }
    loop
        invariant
            0 <= pos <= s@.len(),
            current == (if pos < s@.len() {
                Some(s@[pos])
            } else {
                None
            }),
            chars.remaining() == (if pos < s@.len() {
                s@.skip(pos + 1)
            } else {
                s@.skip(pos)
            }),
            holds(buffer, pending),
            emit(tokens@, lex_from(s@, pos, pending)) == lex(s@),
        decreases s@.len() - pos,
    {
        proof {
            lemma_lex_from_outcome(s@, 0, None);
        }
        let c = match current {
            Some(c) => c,
            None => {
                flush_into(&mut tokens, buffer);
                return Ok(tokens);
            },
        };
        let ghost before = tokens@;
        let ghost closed = flush(pending);
        proof {
            if pos + 1 < s@.len() {
                assert(s@.skip(pos + 1).drop_first() =~= s@.skip(pos + 2));
            }
        }
        if '0' <= c && c <= '9' {
            let base: i32 = match buffer {
                Some(n) => n,
                None => 0,
            };
            let digit = digit_of(c);
            let folded = base.wrapping_mul(10).wrapping_add(digit);
            proof {
                lemma_wrapping_mul(base, 10);
                lemma_wrapping_add(wrap(base * 10), digit);
                lemma_push_digit_wraps(buffer, pending, c);
                pending = Some(push_digit(pending, c));
            }
            buffer = Some(folded);
        } else if c == ' ' {
        } else if c == '(' {
            tokens.push(Token::LParen);
            buffer = None;
            proof {
                pending = None;
                lemma_emit_append(before, seq![Token::LParen], lex_from(s@, pos + 1, None));
                assert(tokens@ =~= before + seq![Token::LParen]);
            }
        } else if c == '*' {
            flush_into(&mut tokens, buffer);
            buffer = None;
            let next = chars.next();
            let doubled = match next {
                Some(d) => d == '*',
                None => false,
            };
            if doubled {
                tokens.push(Token::Power);
                current = chars.next();
                proof {
                    if pos + 2 < s@.len() {
                        assert(s@.skip(pos + 2).drop_first() =~= s@.skip(pos + 3));
                    }
                    lemma_emit_append(
                        before,
                        closed.push(Token::Power),
                        lex_from(s@, pos + 2, None),
                    );
                    assert(tokens@ =~= before + closed.push(Token::Power));
                    pos = pos + 2;
                    pending = None;
                }
            } else {
                tokens.push(Token::Asterisk);
                current = next;
                proof {
                    lemma_emit_append(
                        before,
                        closed.push(Token::Asterisk),
                        lex_from(s@, pos + 1, None),
                    );
                    assert(tokens@ =~= before + closed.push(Token::Asterisk));
                    pos = pos + 1;
                    pending = None;
                }
            }
            continue;
        } else {
            let token = if c == '+' {
                Token::Plus
            } else if c == '-' {
                Token::Minus
            } else if c == '/' {
                Token::Slash
            } else if c == ')' {
                Token::RParen
            } else {
                return Err(LexError { character: c });
            };
            flush_into(&mut tokens, buffer);
            tokens.push(token);
            buffer = None;
            proof {
                pending = None;
                lemma_emit_append(before, closed.push(token), lex_from(s@, pos + 1, None));
                assert(tokens@ =~= before + closed.push(token));
            }
        }
        current = chars.next();
        proof {
            pos = pos + 1;
        }
    }
}

} // verus!
