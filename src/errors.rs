//! Errors reported while tokenizing and parsing.

use vstd::prelude::*;
use crate::text::{decimal, hexadecimal2, push_all, push_decimal, push_hexadecimal};

verus! {

/// Error reported by the tokenizer or the parser.
#[derive(Debug, Clone, PartialEq, Eq)]
pub enum IdmlError {
    /// The input text is empty.
    EmptyInput,
    /// A character that is not allowed at its place, with its 1-based row and column.
    UnexpectedCharacter(char, usize, usize),
    /// The input ended in the middle of a node line or an indentation.
    UnexpectedEndOfInput,
    /// A token other than an indentation token where a node starts.
    ExpectedIndentationToken,
    /// A token other than a node name token after an indentation token.
    ExpectedNodeNameToken,
    /// A token other than a node content token after a node name token.
    ExpectedNodeContentToken,
    /// An indentation width that is not a multiple of the document's indentation unit.
    MalformedIndentation(usize, usize),
    /// An indentation run that mixes spaces and tabs.
    InconsistentIndentation,
    /// An error with a free-form message.
    Message(String),
}

/// The message that describes an error.
pub open spec fn message_of(e: IdmlError) -> Seq<char> {
    match e {
        IdmlError::EmptyInput => "empty input"@,
        IdmlError::UnexpectedCharacter(ch, row, column) => "unexpected character: '"@ + seq![ch]
            + "' 0x"@ + hexadecimal2(ch as u32 as nat) + " at row "@ + decimal(row as nat)
            + " and column "@ + decimal(column as nat),
        IdmlError::UnexpectedEndOfInput => "unexpected end of input"@,
        IdmlError::ExpectedIndentationToken => "expected indentation token"@,
        IdmlError::ExpectedNodeNameToken => "expected node name token"@,
        IdmlError::ExpectedNodeContentToken => "expected node content token"@,
        IdmlError::MalformedIndentation(indent, multiplier) => "malformed indentation "@
            + decimal(indent as nat) + ", expected multiplication of "@ + decimal(
            multiplier as nat,
        ),
        IdmlError::InconsistentIndentation => "inconsistent indentation, mixed spaces and tabs"@,
        IdmlError::Message(m) => m@,
    }
}

impl IdmlError {
    /// Creates an error with the specified message.
    pub fn new(message: &str) -> (r: IdmlError)
        ensures
            r is Message,
            r->Message_0@ == message@,
    {
        IdmlError::Message(String::from_str(message))
    }

    /// Returns the message that describes this error.
    pub fn to_string(&self) -> (r: String)
        ensures
            r@ == message_of(*self),
    {
        let mut s = String::new();
        match self {
            IdmlError::EmptyInput => push_all(&mut s, "empty input"),
            IdmlError::UnexpectedCharacter(ch, row, column) => {
                push_all(&mut s, "unexpected character: '");
                s.push(*ch);
                push_all(&mut s, "' 0x");
                let code = *ch as u32 as usize;
                if code < 16 {
                    s.push('0');
                }
                push_hexadecimal(&mut s, code);
                push_all(&mut s, " at row ");
                push_decimal(&mut s, *row);
                push_all(&mut s, " and column ");
                push_decimal(&mut s, *column);
                proof {
                    reveal_strlit("0");
                    let n = code as nat;
                    if n < 16 {
                        assert(hexadecimal2(n) =~= seq!['0'] + crate::text::hexadecimal(n));
                    }
                }
                assert(s@ =~= message_of(*self));
            },
            IdmlError::UnexpectedEndOfInput => push_all(&mut s, "unexpected end of input"),
            IdmlError::ExpectedIndentationToken => push_all(&mut s, "expected indentation token"),
            IdmlError::ExpectedNodeNameToken => push_all(&mut s, "expected node name token"),
            IdmlError::ExpectedNodeContentToken => push_all(&mut s, "expected node content token"),
            IdmlError::MalformedIndentation(indent, multiplier) => {
                push_all(&mut s, "malformed indentation ");
                push_decimal(&mut s, *indent);
                push_all(&mut s, ", expected multiplication of ");
                push_decimal(&mut s, *multiplier);
                assert(s@ =~= message_of(*self));
            },
            IdmlError::InconsistentIndentation => push_all(
                &mut s,
                "inconsistent indentation, mixed spaces and tabs",
            ),
            IdmlError::Message(m) => push_all(&mut s, m.as_str()),
        }
        s
    }
}

/// Reports an empty input.
pub fn err_empty_input() -> (r: IdmlError)
    ensures
        r == IdmlError::EmptyInput,
{
    IdmlError::EmptyInput
}

/// Reports an unexpected character on input, at the given 1-based row and column.
pub fn err_unexpected_character(ch: char, row: usize, col: usize) -> (r: IdmlError)
    ensures
        r == IdmlError::UnexpectedCharacter(ch, row, col),
{
    IdmlError::UnexpectedCharacter(ch, row, col)
}

/// Reports an unexpected end of input.
pub fn err_unexpected_end() -> (r: IdmlError)
    ensures
        r == IdmlError::UnexpectedEndOfInput,
{
    IdmlError::UnexpectedEndOfInput
}

/// Reports an expected node name token.
pub fn err_expected_node_name() -> (r: IdmlError)
    ensures
        r == IdmlError::ExpectedNodeNameToken,
{
    IdmlError::ExpectedNodeNameToken
}

/// Reports an expected node content token.
pub fn err_expected_node_content() -> (r: IdmlError)
    ensures
        r == IdmlError::ExpectedNodeContentToken,
{
    IdmlError::ExpectedNodeContentToken
}

/// Reports an expected indentation token.
pub fn err_expected_indentation() -> (r: IdmlError)
    ensures
        r == IdmlError::ExpectedIndentationToken,
{
    IdmlError::ExpectedIndentationToken
}

/// Reports an indentation width that is not a multiple of the indentation unit.
pub fn err_malformed_indentation(indent: usize, multiplier: usize) -> (r: IdmlError)
    ensures
        r == IdmlError::MalformedIndentation(indent, multiplier),
{
    IdmlError::MalformedIndentation(indent, multiplier)
}

/// Reports an indentation run that mixes spaces and tabs.
pub fn err_inconsistent_indentation() -> (r: IdmlError)
    ensures
        r == IdmlError::InconsistentIndentation,
{
    IdmlError::InconsistentIndentation
}

} // verus!
