//! Characters of a text annotated with their position, with line endings
//! (`\n`, `\r` or `\r\n`) recognised as single items.

use vstd::prelude::*;
use normalized_line_endings::Annotated;
use normalized_line_endings::{AnnotatedChar as A, LineEnding as L};

verus! {

/// A line ending as written in the text.
#[derive(Debug, Clone, Copy, PartialEq, Eq)]
pub enum LineEnding {
    /// Line feed (U+000A).
    Lf,
    /// Carriage return (U+000D).
    Cr,
    /// Carriage return followed by line feed.
    CrLf,
}

impl LineEnding {
    /// The characters of the line ending.
    pub open spec fn text(self) -> Seq<char> {
        match self {
            LineEnding::Lf => seq!['\n'],
            LineEnding::Cr => seq!['\r'],
            LineEnding::CrLf => seq!['\r', '\n'],
        }
    }

    /// Returns the first character of the line ending.
    pub fn first(&self) -> (c: char)
        ensures
            c == self.text()[0],
    {
        match self {
            LineEnding::Lf => '\n',
            _ => '\r',
        }
    }

    /// Appends the characters of the line ending to `s`.
    pub fn push_to(&self, s: &mut String)
        ensures
            final(s)@ == old(s)@ + self.text(),
    {
        match self {
            LineEnding::Lf => s.push('\n'),
            LineEnding::Cr => s.push('\r'),
            LineEnding::CrLf => {
                s.push('\r');
                s.push('\n');
            },
        }
        assert(final(s)@ =~= old(s)@ + self.text());
    }
}

/// A character or a line ending, with the 1-based row and column where it starts.
#[derive(Debug, Clone, Copy, PartialEq, Eq)]
pub enum AnnotatedChar {
    /// Any character but a line ending.
    Character(char, usize, usize),
    /// A line ending.
    LineEnding(LineEnding, usize, usize),
}

impl AnnotatedChar {
    /// The characters of the text that this item stands for.
    pub open spec fn text(self) -> Seq<char> {
        match self {
            AnnotatedChar::Character(c, _, _) => seq![c],
            AnnotatedChar::LineEnding(e, _, _) => e.text(),
        }
    }
}

/// The first annotated item of a non-empty `s`, when the text before `s` ended
/// at `row` and `column`; with the number of characters it stands for and the
/// row and column where it ends.
pub open spec fn first_item(s: Seq<char>, row: nat, column: nat) -> (AnnotatedChar, int, nat, nat) {
    let (r, c) = (row as usize, (column + 1) as usize);
    if s[0] == '\n' {
        (AnnotatedChar::LineEnding(LineEnding::Lf, r, c), 1, row + 1, 0)
    } else if s[0] == '\r' && s.len() > 1 && s[1] == '\n' {
        (AnnotatedChar::LineEnding(LineEnding::CrLf, r, c), 2, row + 1, 0)
    } else if s[0] == '\r' {
        (AnnotatedChar::LineEnding(LineEnding::Cr, r, c), 1, row + 1, 0)
    } else {
        (AnnotatedChar::Character(s[0], r, c), 1, row, column + 1)
    }
}

/// The annotated items of `s`, when the text before `s` ended at `row` and `column`.
pub open spec fn annotate(s: Seq<char>, row: nat, column: nat) -> Seq<AnnotatedChar>
    decreases s.len(),
{
    if s.len() == 0 {
        seq![]
    } else {
        let (m, k, r, c) = first_item(s, row, column);
        seq![m] + annotate(s.subrange(k, s.len() as int), r, c)
    }
}

/// The annotated items of a whole text.
pub open spec fn annotations(s: Seq<char>) -> Seq<AnnotatedChar> {
    annotate(s, 1, 0)
}

/// The text that a sequence of annotated items stands for.
pub open spec fn text_of(ms: Seq<AnnotatedChar>) -> Seq<char>
    decreases ms.len(),
{
    if ms.len() == 0 {
        seq![]
    } else {
        text_of(ms.drop_last()) + ms.last().text()
    }
}

pub proof fn lemma_text_of_concat(a: Seq<AnnotatedChar>, b: Seq<AnnotatedChar>)
    ensures
        text_of(a + b) == text_of(a) + text_of(b),
    decreases b.len(),
{
    if b.len() == 0 {
        assert(a + b =~= a);
        assert(text_of(b) =~= seq![]);
        assert(text_of(a) + text_of(b) =~= text_of(a));
    } else {
        assert((a + b).drop_last() =~= a + b.drop_last());
        lemma_text_of_concat(a, b.drop_last());
        assert(text_of(a + b) =~= text_of(a) + text_of(b));
    }
}

/// The annotated items stand for the text they were made from, and there are
/// no more of them than characters.
pub proof fn lemma_annotate_text(s: Seq<char>, row: nat, column: nat)
    ensures
        text_of(annotate(s, row, column)) == s,
        annotate(s, row, column).len() <= s.len(),
    decreases s.len(),
{
    if s.len() == 0 {
        assert(text_of(seq![]) =~= s);
    } else {
        let (m, k, r, c) = first_item(s, row, column);
        let rest = s.subrange(k, s.len() as int);
        lemma_annotate_text(rest, r, c);
        lemma_text_of_concat(seq![m], annotate(rest, r, c));
        lemma_text_of_single(m);
        assert(s =~= m.text() + rest);
    }
}

pub proof fn lemma_text_of_single(m: AnnotatedChar)
    ensures
        text_of(seq![m]) == m.text(),
{
    let one = seq![m];
    assert(one.len() == 1);
    assert(one.drop_last() =~= Seq::<AnnotatedChar>::empty());
    assert(text_of(one.drop_last()) =~= seq![]);
    assert(text_of(one) =~= m.text());
}

/// Relies on `normalized_line_endings::Annotated::annotated` over `str::chars`:
/// each character, or each line ending `\n`, `\r` or `\r\n`, with its row and
/// column, rows and columns counted from 1.
#[verifier::external_body]
pub(crate) fn annotated_chars(input: &str) -> (r: Vec<AnnotatedChar>)
    requires
        input@.len() < usize::MAX,
    ensures
        r@ == annotations(input@),
{
    input.chars().annotated().map(|a| match a {
        A::Character(ch, row, column) => AnnotatedChar::Character(ch, row, column),
        A::LineEnding(L::Lf, row, column) => AnnotatedChar::LineEnding(LineEnding::Lf, row, column),
        A::LineEnding(L::Cr, row, column) => AnnotatedChar::LineEnding(LineEnding::Cr, row, column),
        A::LineEnding(L::CrLf, row, column) => AnnotatedChar::LineEnding(LineEnding::CrLf, row, column),
    }).collect()
}

} // verus!
