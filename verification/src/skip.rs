//! Passing over a value without building anything: the state machines that
//! walk an array or an object to its end.

use vstd::prelude::*;
use crate::error::ErrorKind;
use crate::number::READER_BUFFER_SIZE;
use crate::text::{lex_string_end, skip_string};
use crate::token::{lex_token, scan_token, Lex, Token};

verus! {

/// Where the walk through an array stands.
#[derive(Clone, Copy, Debug, PartialEq, Eq, Structural)]
pub enum ArrayState {
    /// Behind `[`: an element or `]` comes next.
    AtValueOrEnd,
    /// Behind `,`: an element comes next.
    AtValue,
    /// Behind an element: `,` or `]` comes next.
    AtCommaOrEnd,
}

/// Where the walk through an object stands.
#[derive(Clone, Copy, Debug, PartialEq, Eq, Structural)]
pub enum ObjectState {
    /// Behind `{`: a key or `}` comes next.
    AtKeyOrEnd,
    /// Behind `,`: a key comes next.
    AtKey,
    /// Behind a key: `:` comes next.
    AtColon,
    /// Behind `:`: the member's value comes next.
    AtValue,
    /// Behind a member: `,` or `}` comes next.
    AtCommaOrEnd,
}

/// Passes over the rest of a value whose first token, `token`, ended at
/// `end`. A token that can start no value is rejected.
pub open spec fn skip_value_after(s: Seq<u8>, token: Token, end: int) -> Lex<()>
    decreases s.len() - end, 1int,
{
    match token {
        Token::Null | Token::False | Token::True | Token::Number(_, _) => Lex::Done {
            value: (),
            end,
        },
        Token::QuoteStart => lex_string_end(s, end),
        Token::ArrayBegin => skip_array_from(s, end, ArrayState::AtValueOrEnd),
        Token::ObjectBegin => skip_object_from(s, end, ObjectState::AtKeyOrEnd),
        _ => Lex::Fail { kind: ErrorKind::UnexpectedToken },
    }
}

/// Walks an array from index `i` in state `state` to behind its `]`.
pub open spec fn skip_array_from(s: Seq<u8>, i: int, state: ArrayState) -> Lex<()>
    decreases s.len() - i, 0int,
{
    match lex_token(s, i) {
        Lex::Fail { kind } => Lex::Fail { kind },
        Lex::Done { value: token, end } => if end <= i || end > s.len() {
            Lex::Fail { kind: ErrorKind::UnexpectedToken }
        } else if state == ArrayState::AtCommaOrEnd {
            match token {
                Token::ArrayEnd => Lex::Done { value: (), end },
                Token::Comma => skip_array_from(s, end, ArrayState::AtValue),
                _ => Lex::Fail { kind: ErrorKind::UnexpectedToken },
            }
        } else if token == Token::ArrayEnd && state == ArrayState::AtValueOrEnd {
            Lex::Done { value: (), end }
        } else {
            match skip_value_after(s, token, end) {
                Lex::Fail { kind } => Lex::Fail { kind },
                Lex::Done { value, end: after } => if after <= i || after > s.len() {
                    Lex::Fail { kind: ErrorKind::UnexpectedToken }
                } else {
                    skip_array_from(s, after, ArrayState::AtCommaOrEnd)
                },
            }
        },
    }
}

/// Walks an object from index `i` in state `state` to behind its `}`.
pub open spec fn skip_object_from(s: Seq<u8>, i: int, state: ObjectState) -> Lex<()>
    decreases s.len() - i, 0int,
{
    match lex_token(s, i) {
        Lex::Fail { kind } => Lex::Fail { kind },
        Lex::Done { value: token, end } => if end <= i || end > s.len() {
            Lex::Fail { kind: ErrorKind::UnexpectedToken }
        } else {
            match state {
                ObjectState::AtKeyOrEnd | ObjectState::AtKey => if token == Token::QuoteStart {
                    match lex_string_end(s, end) {
                        Lex::Fail { kind } => Lex::Fail { kind },
                        Lex::Done { value, end: after } => if after <= i || after > s.len() {
                            Lex::Fail { kind: ErrorKind::UnexpectedToken }
                        } else {
                            skip_object_from(s, after, ObjectState::AtColon)
                        },
                    }
                } else if token == Token::ObjectEnd && state == ObjectState::AtKeyOrEnd {
                    Lex::Done { value: (), end }
                } else {
                    Lex::Fail { kind: ErrorKind::UnexpectedToken }
                },
                ObjectState::AtColon => if token == Token::Colon {
                    skip_object_from(s, end, ObjectState::AtValue)
                } else {
                    Lex::Fail { kind: ErrorKind::UnexpectedToken }
                },
                ObjectState::AtValue => match skip_value_after(s, token, end) {
                    Lex::Fail { kind } => Lex::Fail { kind },
                    Lex::Done { value, end: after } => if after <= i || after > s.len() {
                        Lex::Fail { kind: ErrorKind::UnexpectedToken }
                    } else {
                        skip_object_from(s, after, ObjectState::AtCommaOrEnd)
                    },
                },
                ObjectState::AtCommaOrEnd => match token {
                    Token::ObjectEnd => Lex::Done { value: (), end },
                    Token::Comma => skip_object_from(s, end, ObjectState::AtKey),
                    _ => Lex::Fail { kind: ErrorKind::UnexpectedToken },
                },
            }
        },
    }
}

/// Passes over one whole value from index `i`.
pub open spec fn skip_value(s: Seq<u8>, i: int) -> Lex<()> {
    match lex_token(s, i) {
        Lex::Fail { kind } => Lex::Fail { kind },
        Lex::Done { value: token, end } => skip_value_after(s, token, end),
    }
}

/// Passes over the rest of a value whose first token, `token`, ended at
/// `end`. The digits of the numbers on the way go through `digits`.
pub fn skip_after(input: &[u8], token: Token, end: usize, digits: &mut [u8; READER_BUFFER_SIZE]) -> (r:
    Result<usize, ErrorKind>)
    requires
        end <= input.len(),
    ensures
        match skip_value_after(input@, token, end as int) {
            Lex::Done { value, end: after } => r == Ok::<usize, ErrorKind>(after as usize) && end
                <= after <= input.len(),
            Lex::Fail { kind } => r == Err::<usize, ErrorKind>(kind),
        },
    decreases input.len() - end, 1int,
{
    match token {
        Token::Null | Token::False | Token::True | Token::Number(_, _) => Ok(end),
        Token::QuoteStart => skip_string(input, end),
        Token::ArrayBegin => skip_array(input, end, digits),
        Token::ObjectBegin => skip_object(input, end, digits),
        _ => Err(ErrorKind::UnexpectedToken),
    }
}

/// Walks the array whose `[` stands in front of `start` to behind its `]`.
pub fn skip_array(input: &[u8], start: usize, digits: &mut [u8; READER_BUFFER_SIZE]) -> (r: Result<
    usize,
    ErrorKind,
>)
    requires
        start <= input.len(),
    ensures
        match skip_array_from(input@, start as int, ArrayState::AtValueOrEnd) {
            Lex::Done { value, end } => r == Ok::<usize, ErrorKind>(end as usize) && start < end
                <= input.len(),
            Lex::Fail { kind } => r == Err::<usize, ErrorKind>(kind),
        },
    decreases input.len() - start, 0int,
{
    let mut state = ArrayState::AtValueOrEnd;
    let mut i: usize = start;
    loop
        invariant
            start <= i <= input.len(),
            skip_array_from(input@, start as int, ArrayState::AtValueOrEnd) == skip_array_from(
                input@,
                i as int,
                state,
            ),
        decreases input.len() - i,
    {
        let t = scan_token(input, i, digits)?;
        match state {
            ArrayState::AtCommaOrEnd => match t.token {
                Token::ArrayEnd => {
                    return Ok(t.end);
                },
                Token::Comma => {
                    state = ArrayState::AtValue;
                    i = t.end;
                },
                _ => {
                    return Err(ErrorKind::UnexpectedToken);
                },
            },
            _ => {
                if let Token::ArrayEnd = t.token {
                    if let ArrayState::AtValueOrEnd = state {
                        return Ok(t.end);
                    }
                }
                let after = skip_after(input, t.token, t.end, digits)?;
                state = ArrayState::AtCommaOrEnd;
                i = after;
            },
        }
    }
}

/// Walks the object whose `{` stands in front of `start` to behind its `}`.
pub fn skip_object(input: &[u8], start: usize, digits: &mut [u8; READER_BUFFER_SIZE]) -> (r: Result<
    usize,
    ErrorKind,
>)
    requires
        start <= input.len(),
    ensures
        match skip_object_from(input@, start as int, ObjectState::AtKeyOrEnd) {
            Lex::Done { value, end } => r == Ok::<usize, ErrorKind>(end as usize) && start < end
                <= input.len(),
            Lex::Fail { kind } => r == Err::<usize, ErrorKind>(kind),
        },
    decreases input.len() - start, 0int,
{
    let mut state = ObjectState::AtKeyOrEnd;
    let mut i: usize = start;
    loop
        invariant
            start <= i <= input.len(),
            skip_object_from(input@, start as int, ObjectState::AtKeyOrEnd) == skip_object_from(
                input@,
                i as int,
                state,
            ),
        decreases input.len() - i,
    {
        let t = scan_token(input, i, digits)?;
        match state {
            ObjectState::AtKeyOrEnd | ObjectState::AtKey => {
                if let Token::QuoteStart = t.token {
                    let after = skip_string(input, t.end)?;
                    state = ObjectState::AtColon;
                    i = after;
                } else {
                    if let Token::ObjectEnd = t.token {
                        if let ObjectState::AtKeyOrEnd = state {
                            return Ok(t.end);
                        }
                    }
                    return Err(ErrorKind::UnexpectedToken);
                }
            },
            ObjectState::AtColon => {
                if let Token::Colon = t.token {
                    state = ObjectState::AtValue;
                    i = t.end;
                } else {
                    return Err(ErrorKind::UnexpectedToken);
                }
            },
            ObjectState::AtValue => {
                let after = skip_after(input, t.token, t.end, digits)?;
                state = ObjectState::AtCommaOrEnd;
                i = after;
            },
            ObjectState::AtCommaOrEnd => match t.token {
                Token::ObjectEnd => {
                    return Ok(t.end);
                },
                Token::Comma => {
                    state = ObjectState::AtKey;
                    i = t.end;
                },
                _ => {
                    return Err(ErrorKind::UnexpectedToken);
                },
            },
        }
    }
}

} // verus!
