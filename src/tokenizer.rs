//! Tokenizer: turns a text into indentation, node name and node content tokens.

use vstd::prelude::*;
use crate::defs::{NULL, TAB, WS};
use crate::errors::IdmlError;
use crate::lines::{
    annotated_chars, annotations, lemma_annotate_text, lemma_text_of_concat, lemma_text_of_single,
    text_of, AnnotatedChar,
};

verus! {

/// Token.
#[derive(Debug, Clone, PartialEq, Eq)]
pub enum Token {
    /// Node name token with delimiter character.
    NodeName(String, char),
    /// Node content token.
    NodeContent(String),
    /// Indentation token with its width and indentation character
    /// ([NULL] when the width is zero).
    Indentation(usize, char),
}

/// Mathematical model of a [Token].
pub enum TokenView {
    NodeName(Seq<char>, char),
    NodeContent(Seq<char>),
    Indentation(usize, char),
}

impl View for Token {
    type V = TokenView;

    open spec fn view(&self) -> TokenView {
        match self {
            Token::NodeName(name, delimiter) => TokenView::NodeName(name@, *delimiter),
            Token::NodeContent(content) => TokenView::NodeContent(content@),
            Token::Indentation(width, ch) => TokenView::Indentation(*width, *ch),
        }
    }
}

/// The models of a sequence of tokens.
pub open spec fn tokens_view(ts: Seq<Token>) -> Seq<TokenView> {
    ts.map_values(|t: Token| t@)
}

/// The text that a token stands for.
pub open spec fn token_text(t: TokenView) -> Seq<char> {
    match t {
        TokenView::NodeName(name, delimiter) => seq![delimiter] + name,
        TokenView::NodeContent(content) => content,
        TokenView::Indentation(width, ch) => Seq::new(width as nat, |i: int| ch),
    }
}

/// The text that a sequence of tokens stands for.
pub open spec fn joined(ts: Seq<TokenView>) -> Seq<char>
    decreases ts.len(),
{
    if ts.len() == 0 {
        seq![]
    } else {
        joined(ts.drop_last()) + token_text(ts.last())
    }
}

/// Tokenizer state.
#[derive(Debug, Clone, Copy, PartialEq, Eq)]
pub enum TokenizerState {
    /// At the beginning of the input.
    Start,
    /// At the beginning of a line.
    NewLine,
    /// Inside the indentation at the beginning of a line.
    Indentation,
    /// Inside a node name.
    NodeName,
    /// Inside a node content.
    NodeContent,
}

/// Characters that a dialect allows in node names.
#[derive(Debug, Clone, Copy, PartialEq, Eq)]
pub enum NameChars {
    /// Every character from U+0021 on; names may be empty.
    Any,
    /// ASCII letters and digits, `-` and `_`; names may not be empty, and
    /// such characters may not be the delimiter.
    Identifier,
}

/// Options that tell the dialects of the markup apart.
#[derive(Debug, Clone, Copy, PartialEq, Eq)]
pub struct Dialect {
    /// The delimiter that every document must use; when `None`, the first
    /// character of a document is its delimiter.
    pub delimiter: Option<char>,
    /// Whether tabs indent node lines; when `false`, only spaces do and a tab
    /// at the beginning of a line is content.
    pub tabs: bool,
    /// Characters allowed in node names.
    pub names: NameChars,
}

/// The dialect that [tokenize] reads: any delimiter, tabs or spaces, and
/// any character from U+0021 on in names.
pub open spec fn default_dialect() -> Dialect {
    Dialect { delimiter: None, tabs: true, names: NameChars::Any }
}

impl Dialect {
    /// Returns the dialect that [tokenize] reads.
    pub fn new() -> (r: Dialect)
        ensures
            r == default_dialect(),
    {
        Dialect { delimiter: None, tabs: true, names: NameChars::Any }
    }
}

/// ASCII letters and digits, `-` and `_`.
pub open spec fn is_identifier_char(ch: char) -> bool {
    let u = ch as u32;
    (0x30 <= u <= 0x39) || (0x41 <= u <= 0x5A) || (0x61 <= u <= 0x7A) || ch == '-' || ch == '_'
}

/// Whether `ch` may be the delimiter of a document in dialect `d`.
pub open spec fn may_delimit(d: Dialect, ch: char) -> bool {
    &&& is_allowed(ch)
    &&& d.names == NameChars::Identifier ==> !is_identifier_char(ch)
    &&& d.delimiter is Some ==> ch == d.delimiter->Some_0
}

/// Whether `ch` may stand in a node name in dialect `d`.
pub open spec fn in_name(d: Dialect, ch: char) -> bool {
    match d.names {
        NameChars::Any => is_allowed(ch),
        NameChars::Identifier => is_identifier_char(ch),
    }
}

/// Whether `ch` indents node lines in dialect `d`.
pub open spec fn indents(d: Dialect, ch: char) -> bool {
    ch == WS || (d.tabs && ch == TAB)
}

/// Whether a node name in dialect `d` may end after `name`.
pub open spec fn name_may_end(d: Dialect, name: Seq<char>) -> bool {
    d.names == NameChars::Any || name.len() > 0
}

/// Mathematical model of the tokenizer between two input items.
pub struct Scan {
    /// Dialect of the document.
    pub dialect: Dialect,
    pub state: TokenizerState,
    /// Delimiter of the document, known after the first character.
    pub delimiter: char,
    /// Indentation character of the document, [NULL] until a node line is indented.
    pub indent_char: char,
    /// Whitespace read at the beginning of the current line.
    pub indentation: Seq<char>,
    /// Name of the current node, read so far.
    pub name: Seq<char>,
    /// Content of the current node, read so far.
    pub content: Seq<char>,
    /// Tokens produced so far.
    pub tokens: Seq<TokenView>,
}

/// The tokenizer before any input, for a document in dialect `d`.
pub open spec fn scan_start(d: Dialect) -> Scan {
    Scan {
        dialect: d,
        state: TokenizerState::Start,
        delimiter: NULL,
        indent_char: NULL,
        indentation: seq![],
        name: seq![],
        content: seq![],
        tokens: seq![],
    }
}

/// Characters that may be a delimiter or stand in a node name.
pub open spec fn is_allowed(ch: char) -> bool {
    ch as u32 >= 0x21
}

/// Every character of `s` is `ch`.
pub open spec fn all_are(s: Seq<char>, ch: char) -> bool {
    forall|i: int| 0 <= i < s.len() ==> s[i] == ch
}

/// The token for an indentation run, in a document indented so far with
/// `indent_char`; an error when the run mixes spaces and tabs, or is made of
/// the other one.
pub open spec fn indentation_token(run: Seq<char>, indent_char: char) -> Result<TokenView, IdmlError> {
    if all_are(run, WS) && indent_char != TAB {
        Ok(TokenView::Indentation(run.len() as usize, WS))
    } else if all_are(run, TAB) && indent_char != WS {
        Ok(TokenView::Indentation(run.len() as usize, TAB))
    } else {
        Err(IdmlError::InconsistentIndentation)
    }
}

/// The tokenizer after reading one more input item.
pub open spec fn step(s: Scan, m: AnnotatedChar) -> Result<Scan, IdmlError> {
    match s.state {
        TokenizerState::Start => match m {
            AnnotatedChar::Character(ch, row, column) => if may_delimit(s.dialect, ch) {
                Ok(
                    Scan {
                        state: TokenizerState::NodeName,
                        delimiter: ch,
                        tokens: s.tokens.push(TokenView::Indentation(0, NULL)),
                        ..s
                    },
                )
            } else {
                Err(IdmlError::UnexpectedCharacter(ch, row, column))
            },
            AnnotatedChar::LineEnding(e, row, column) => Err(
                IdmlError::UnexpectedCharacter(e.text()[0], row, column),
            ),
        },
        TokenizerState::NewLine => match m {
            AnnotatedChar::Character(ch, _, _) => if ch == s.delimiter {
                Ok(
                    Scan {
                        state: TokenizerState::NodeName,
                        content: seq![],
                        tokens: s.tokens.push(TokenView::NodeContent(s.content)).push(
                            TokenView::Indentation(0, NULL),
                        ),
                        ..s
                    },
                )
            } else if indents(s.dialect, ch) {
                Ok(
                    Scan {
                        state: TokenizerState::Indentation,
                        indentation: s.indentation.push(ch),
                        ..s
                    },
                )
            } else {
                Ok(Scan { state: TokenizerState::NodeContent, content: s.content.push(ch), ..s })
            },
            AnnotatedChar::LineEnding(e, _, _) => Ok(Scan { content: s.content + e.text(), ..s }),
        },
        TokenizerState::Indentation => match m {
            AnnotatedChar::Character(ch, _, _) => if ch == s.delimiter {
                match indentation_token(s.indentation, s.indent_char) {
                    Ok(t) => Ok(
                        Scan {
                            state: TokenizerState::NodeName,
                            indent_char: t->Indentation_1,
                            indentation: seq![],
                            content: seq![],
                            tokens: s.tokens.push(TokenView::NodeContent(s.content)).push(t),
                            ..s
                        },
                    ),
                    Err(e) => Err(e),
                }
            } else if indents(s.dialect, ch) {
                Ok(Scan { indentation: s.indentation.push(ch), ..s })
            } else {
                Ok(
                    Scan {
                        state: TokenizerState::NodeContent,
                        indentation: seq![],
                        content: (s.content + s.indentation).push(ch),
                        ..s
                    },
                )
            },
            AnnotatedChar::LineEnding(e, _, _) => Ok(
                Scan {
                    state: TokenizerState::NewLine,
                    indentation: seq![],
                    content: s.content + s.indentation + e.text(),
                    ..s
                },
            ),
        },
        TokenizerState::NodeName => match m {
            AnnotatedChar::Character(ch, row, column) => if (ch == WS || ch == TAB) && name_may_end(
                s.dialect,
                s.name,
            ) {
                Ok(
                    Scan {
                        state: TokenizerState::NodeContent,
                        name: seq![],
                        content: s.content.push(ch),
                        tokens: s.tokens.push(TokenView::NodeName(s.name, s.delimiter)),
                        ..s
                    },
                )
            } else if in_name(s.dialect, ch) {
                Ok(Scan { name: s.name.push(ch), ..s })
            } else {
                Err(IdmlError::UnexpectedCharacter(ch, row, column))
            },
            AnnotatedChar::LineEnding(e, row, column) => if name_may_end(s.dialect, s.name) {
                Ok(
                Scan {
                    state: TokenizerState::NewLine,
                    name: seq![],
                    content: s.content + e.text(),
                    tokens: s.tokens.push(TokenView::NodeName(s.name, s.delimiter)),
                    ..s
                },
                )
            } else {
                Err(IdmlError::UnexpectedCharacter(e.text()[0], row, column))
            },
        },
        TokenizerState::NodeContent => match m {
            AnnotatedChar::Character(ch, _, _) => Ok(Scan { content: s.content.push(ch), ..s }),
            AnnotatedChar::LineEnding(e, _, _) => Ok(
                Scan { state: TokenizerState::NewLine, content: s.content + e.text(), ..s },
            ),
        },
    }
}

/// The tokens, once the whole input has been read.
pub open spec fn finish(s: Scan) -> Result<Seq<TokenView>, IdmlError> {
    match s.state {
        TokenizerState::Start => Err(IdmlError::EmptyInput),
        TokenizerState::NewLine => Ok(s.tokens.push(TokenView::NodeContent(s.content))),
        _ => Err(IdmlError::UnexpectedEndOfInput),
    }
}

/// The tokens produced from state `s` on reading the items `ms` up to the end of input.
pub open spec fn run(s: Scan, ms: Seq<AnnotatedChar>) -> Result<Seq<TokenView>, IdmlError>
    decreases ms.len(),
{
    if ms.len() == 0 {
        finish(s)
    } else {
        match step(s, ms[0]) {
            Ok(next) => run(next, ms.drop_first()),
            Err(e) => Err(e),
        }
    }
}

/// The tokens of a text in dialect `d`.
pub open spec fn tokens_in(d: Dialect, text: Seq<char>) -> Result<Seq<TokenView>, IdmlError> {
    run(scan_start(d), annotations(text))
}

/// The tokens of a text in the default dialect.
pub open spec fn tokens_of(text: Seq<char>) -> Result<Seq<TokenView>, IdmlError> {
    tokens_in(default_dialect(), text)
}

/// The model of a tokenizer result.
pub open spec fn result_view(r: Result<Vec<Token>, IdmlError>) -> Result<Seq<TokenView>, IdmlError> {
    match r {
        Ok(ts) => Ok(tokens_view(ts@)),
        Err(e) => Err(e),
    }
}

/// Tokenizer.
pub struct Tokenizer<'a> {
    /// Input text.
    input: &'a str,
    /// Dialect of the input.
    dialect: Dialect,
    /// Current tokenizing state.
    state: TokenizerState,
    /// Delimiter used in the processed document.
    delimiter: char,
    /// Indentation character of the document, [NULL] until a node line is indented.
    indent_char: char,
    /// Whitespace read at the beginning of the current line.
    indentation: Vec<char>,
    /// Name of the currently processed node.
    node_name: String,
    /// Content of the currently processed node.
    node_content: String,
    /// Tokens produced so far.
    tokens: Vec<Token>,
}

impl<'a> Tokenizer<'a> {
    /// The model of the tokenizer's state.
    pub closed spec fn scan(&self) -> Scan {
        Scan {
            dialect: self.dialect,
            state: self.state,
            delimiter: self.delimiter,
            indent_char: self.indent_char,
            indentation: self.indentation@,
            name: self.node_name@,
            content: self.node_content@,
            tokens: tokens_view(self.tokens@),
        }
    }

    /// The text to tokenize.
    pub closed spec fn source(&self) -> Seq<char> {
        self.input@
    }

    /// Creates a new instance of the tokenizer, for the default dialect.
    pub fn new(input: &'a str) -> (r: Self)
        ensures
            r.scan() == scan_start(default_dialect()),
            r.source() == input@,
    {
        Self::with_dialect(input, Dialect::new())
    }

    /// Creates a new instance of the tokenizer, for the given dialect.
    pub fn with_dialect(input: &'a str, dialect: Dialect) -> (r: Self)
        ensures
            r.scan() == scan_start(dialect),
            r.source() == input@,
    {
        let r = Tokenizer {
            input,
            dialect,
            state: TokenizerState::Start,
            delimiter: NULL,
            indent_char: NULL,
            indentation: Vec::new(),
            node_name: String::new(),
            node_content: String::new(),
            tokens: Vec::new(),
        };
        assert(r.scan().tokens =~= seq![]);
        r
    }

    /// Tokenizes the input text.
    #[verifier::loop_isolation(false)]
    pub fn tokenize(self) -> (r: Result<Vec<Token>, IdmlError>)
        requires
            self.source().len() < usize::MAX,
        ensures
            result_view(r) == run(self.scan(), annotations(self.source())),
    {
        let ghost start = self.scan();
        let ghost text = self.source();
        let mut this = self;
        let marks = annotated_chars(this.input);
        let ghost all = marks@;
        let n = marks.len();
        let mut i: usize = 0;
        assert(all.subrange(0, n as int) =~= all);
        while i < n
            invariant
                0 <= i <= n,
                n == all.len(),
                marks@ == all,
                all == annotations(text),
                run(start, all) == run(this.scan(), all.subrange(i as int, n as int)),
            decreases n - i,
        {
            let ghost before = this.scan();
            assert(all.subrange(i as int, n as int).drop_first() =~= all.subrange(
                i as int + 1,
                n as int,
            ));
            assert(all.subrange(i as int, n as int)[0] == all[i as int]);
            match this.step(marks[i]) {
                Ok(()) => {},
                Err(e) => {
                    assert(run(before, all.subrange(i as int, n as int)) == Err::<
                        Seq<TokenView>,
                        IdmlError,
                    >(e));
                    return Err(e);
                },
            }
            i = i + 1;
        }
        match this.state {
            TokenizerState::Start => Err(IdmlError::EmptyInput),
            TokenizerState::NewLine => {
                this.consume_node_content();
                Ok(this.tokens)
            },
            _ => Err(IdmlError::UnexpectedEndOfInput),
        }
    }

    /// Reads one input item.
    fn step(&mut self, m: AnnotatedChar) -> (r: Result<(), IdmlError>)
        ensures
            final(self).input == old(self).input,
            match step(old(self).scan(), m) {
                Ok(next) => r is Ok && final(self).scan() == next,
                Err(e) => r == Err::<(), IdmlError>(e),
            },
    {
        match self.state {
            TokenizerState::Start => match m {
                AnnotatedChar::Character(ch, row, column) => {
                    if may_delimit_char(&self.dialect, ch) {
                        self.delimiter = ch;
                        self.push_token(Token::Indentation(0, NULL));
                        self.state = TokenizerState::NodeName;
                    } else {
                        return Err(IdmlError::UnexpectedCharacter(ch, row, column));
                    }
                },
                AnnotatedChar::LineEnding(e, row, column) => {
                    return Err(IdmlError::UnexpectedCharacter(e.first(), row, column));
                },
            },
            TokenizerState::NewLine => match m {
                AnnotatedChar::Character(ch, _, _) => {
                    if ch == self.delimiter {
                        self.consume_node_content();
                        self.push_token(Token::Indentation(0, NULL));
                        self.state = TokenizerState::NodeName;
                    } else if indents_char(&self.dialect, ch) {
                        self.indentation.push(ch);
                        self.state = TokenizerState::Indentation;
                    } else {
                        self.node_content.push(ch);
                        self.state = TokenizerState::NodeContent;
                    }
                },
                AnnotatedChar::LineEnding(e, _, _) => {
                    e.push_to(&mut self.node_content);
                },
            },
            TokenizerState::Indentation => match m {
                AnnotatedChar::Character(ch, _, _) => {
                    if ch == self.delimiter {
                        self.consume_node_content();
                        self.consume_indentation()?;
                        self.state = TokenizerState::NodeName;
                    } else if indents_char(&self.dialect, ch) {
                        self.indentation.push(ch);
                    } else {
                        self.flush_indentation();
                        self.node_content.push(ch);
                        self.state = TokenizerState::NodeContent;
                    }
                },
                AnnotatedChar::LineEnding(e, _, _) => {
                    self.flush_indentation();
                    e.push_to(&mut self.node_content);
                    self.state = TokenizerState::NewLine;
                },
            },
            TokenizerState::NodeName => match m {
                AnnotatedChar::Character(ch, row, column) => {
                    if (ch == WS || ch == TAB) && self.name_may_end() {
                        self.consume_node_name();
                        self.node_content.push(ch);
                        self.state = TokenizerState::NodeContent;
                    } else if in_name_char(&self.dialect, ch) {
                        self.node_name.push(ch);
                    } else {
                        return Err(IdmlError::UnexpectedCharacter(ch, row, column));
                    }
                },
                AnnotatedChar::LineEnding(e, row, column) => {
                    if !self.name_may_end() {
                        return Err(IdmlError::UnexpectedCharacter(e.first(), row, column));
                    }
                    self.consume_node_name();
                    e.push_to(&mut self.node_content);
                    self.state = TokenizerState::NewLine;
                },
            },
            TokenizerState::NodeContent => match m {
                AnnotatedChar::Character(ch, _, _) => {
                    self.node_content.push(ch);
                },
                AnnotatedChar::LineEnding(e, _, _) => {
                    e.push_to(&mut self.node_content);
                    self.state = TokenizerState::NewLine;
                },
            },
        }
        assert(self.scan() =~= step(old(self).scan(), m)->Ok_0);
        Ok(())
    }

    /// Returns `true` when the node name read so far may end.
    fn name_may_end(&self) -> (r: bool)
        ensures
            r == name_may_end(self.scan().dialect, self.scan().name),
    {
        match self.dialect.names {
            NameChars::Any => true,
            NameChars::Identifier => !self.node_name.as_str().is_empty(),
        }
    }

    /// Appends a token to the produced tokens.
    fn push_token(&mut self, t: Token)
        ensures
            final(self).scan() == (Scan { tokens: old(self).scan().tokens.push(t@), ..old(self).scan() }),
            final(self).input == old(self).input,
    {
        self.tokens.push(t);
        assert(tokens_view(self.tokens@) =~= tokens_view(old(self).tokens@).push(t@));
    }

    /// Consumes the indentation run, producing its token.
    fn consume_indentation(&mut self) -> (r: Result<(), IdmlError>)
        ensures
            final(self).input == old(self).input,
            match indentation_token(old(self).scan().indentation, old(self).scan().indent_char) {
                Ok(t) => r is Ok && final(self).scan() == (Scan {
                    indent_char: t->Indentation_1,
                    indentation: seq![],
                    tokens: old(self).scan().tokens.push(t),
                    ..old(self).scan()
                }),
                Err(e) => r == Err::<(), IdmlError>(e),
            },
            (exists|i: int, j: int|
                0 <= i < old(self).indentation@.len() && 0 <= j < old(self).indentation@.len()
                    && old(self).indentation@[i] == WS && old(self).indentation@[j] == TAB)
                ==> r == Err::<(), IdmlError>(IdmlError::InconsistentIndentation),
    {
        let width = self.indentation.len();
        if all_chars_are(&self.indentation, WS) && self.indent_char != TAB {
            self.indentation = Vec::new();
            self.indent_char = WS;
            self.push_token(Token::Indentation(width, WS));
            Ok(())
        } else if all_chars_are(&self.indentation, TAB) && self.indent_char != WS {
            self.indentation = Vec::new();
            self.indent_char = TAB;
            self.push_token(Token::Indentation(width, TAB));
            Ok(())
        } else {
            Err(IdmlError::InconsistentIndentation)
        }
    }

    /// Moves the indentation run, which turned out not to start a node, to the content.
    fn flush_indentation(&mut self)
        ensures
            final(self).input == old(self).input,
            final(self).scan() == (Scan {
                indentation: seq![],
                content: old(self).scan().content + old(self).scan().indentation,
                ..old(self).scan()
            }),
    {
        let n = self.indentation.len();
        let mut i: usize = 0;
        while i < n
            invariant
                0 <= i <= n,
                n == self.indentation@.len(),
                self.indentation == old(self).indentation,
                self.input == old(self).input,
                self.state == old(self).state,
                self.delimiter == old(self).delimiter,
                self.indent_char == old(self).indent_char,
                self.dialect == old(self).dialect,
                self.node_name == old(self).node_name,
                self.tokens == old(self).tokens,
                self.node_content@ == old(self).node_content@ + self.indentation@.subrange(0, i as int),
            decreases n - i,
        {
            let ch = self.indentation[i];
            self.node_content.push(ch);
            i = i + 1;
            assert(self.node_content@ =~= old(self).node_content@ + self.indentation@.subrange(0, i as int));
        }
        assert(self.indentation@.subrange(0, n as int) =~= self.indentation@);
        self.indentation = Vec::new();
        assert(self.scan().indentation =~= seq![]);
    }

    /// Consumes the node name, producing its token.
    fn consume_node_name(&mut self)
        ensures
            final(self).input == old(self).input,
            final(self).scan() == (Scan {
                name: seq![],
                tokens: old(self).scan().tokens.push(TokenView::NodeName(old(self).scan().name, old(self).scan().delimiter)),
                ..old(self).scan()
            }),
    {
        let name = self.node_name.clone();
        self.node_name = String::new();
        let delimiter = self.delimiter;
        self.push_token(Token::NodeName(name, delimiter));
    }

    /// Consumes the node content, producing its token.
    fn consume_node_content(&mut self)
        ensures
            final(self).input == old(self).input,
            final(self).scan() == (Scan {
                content: seq![],
                tokens: old(self).scan().tokens.push(TokenView::NodeContent(old(self).scan().content)),
                ..old(self).scan()
            }),
    {
        let content = self.node_content.clone();
        self.node_content = String::new();
        self.push_token(Token::NodeContent(content));
    }
}

/// Returns `true` when the character may be a delimiter or stand in a node name.
fn is_allowed_char(ch: char) -> (r: bool)
    ensures
        r == is_allowed(ch),
{
    ch as u32 >= 0x21
}

/// Returns `true` for ASCII letters and digits, `-` and `_`.
fn is_identifier(ch: char) -> (r: bool)
    ensures
        r == is_identifier_char(ch),
{
    let u = ch as u32;
    (0x30 <= u && u <= 0x39) || (0x41 <= u && u <= 0x5A) || (0x61 <= u && u <= 0x7A) || ch == '-'
        || ch == '_'
}

/// Returns `true` when `ch` may be the delimiter of a document in dialect `d`.
fn may_delimit_char(d: &Dialect, ch: char) -> (r: bool)
    ensures
        r == may_delimit(*d, ch),
{
    let fits = match d.delimiter {
        Some(fixed) => ch == fixed,
        None => true,
    };
    let reserved = match d.names {
        NameChars::Any => false,
        NameChars::Identifier => is_identifier(ch),
    };
    is_allowed_char(ch) && !reserved && fits
}

/// Returns `true` when `ch` may stand in a node name in dialect `d`.
fn in_name_char(d: &Dialect, ch: char) -> (r: bool)
    ensures
        r == in_name(*d, ch),
{
    match d.names {
        NameChars::Any => is_allowed_char(ch),
        NameChars::Identifier => is_identifier(ch),
    }
}

/// Returns `true` when `ch` indents node lines in dialect `d`.
fn indents_char(d: &Dialect, ch: char) -> (r: bool)
    ensures
        r == indents(*d, ch),
{
    ch == WS || (d.tabs && ch == TAB)
}

/// Returns `true` when every character of `v` is `ch`.
fn all_chars_are(v: &Vec<char>, ch: char) -> (r: bool)
    ensures
        r == all_are(v@, ch),
{
    let mut i: usize = 0;
    while i < v.len()
        invariant
            0 <= i <= v.len(),
            forall|j: int| 0 <= j < i ==> v@[j] == ch,
        decreases v.len() - i,
    {
        if v[i] != ch {
            return false;
        }
        i = i + 1;
    }
    true
}

/// Tokenizes input text.
pub fn tokenize(input: &str) -> (r: Result<Vec<Token>, IdmlError>)
    requires
        input@.len() < usize::MAX,
    ensures
        result_view(r) == tokens_of(input@),
        input@.len() == 0 ==> r == Err::<Vec<Token>, IdmlError>(IdmlError::EmptyInput),
        r is Ok ==> joined(tokens_view(r->Ok_0@)) == input@,
        r is Ok ==> widths_within(tokens_view(r->Ok_0@), input@.len()),
{
    tokenize_in(input, Dialect::new())
}

/// Tokenizes input text written in the given dialect.
pub fn tokenize_in(input: &str, dialect: Dialect) -> (r: Result<Vec<Token>, IdmlError>)
    requires
        input@.len() < usize::MAX,
    ensures
        result_view(r) == tokens_in(dialect, input@),
        input@.len() == 0 ==> r == Err::<Vec<Token>, IdmlError>(IdmlError::EmptyInput),
        r is Ok ==> joined(tokens_view(r->Ok_0@)) == input@,
        r is Ok ==> widths_within(tokens_view(r->Ok_0@), input@.len()),
{
    let r = Tokenizer::with_dialect(input, dialect).tokenize();
    proof {
        lemma_tokens_in(dialect, input@);
        if input@.len() == 0 {
            assert(annotations(input@) =~= seq![]);
        }
    }
    r
}

/// Joins tokens back into the text they stand for.
pub fn join_tokens(tokens: Vec<Token>) -> (r: String)
    ensures
        r@ == joined(tokens_view(tokens@)),
{
    let mut s = String::new();
    let n = tokens.len();
    let mut i: usize = 0;
    while i < n
        invariant
            0 <= i <= n,
            n == tokens@.len(),
            s@ == joined(tokens_view(tokens@.subrange(0, i as int))),
        decreases n - i,
    {
        let ghost before = s@;
        match &tokens[i] {
            Token::NodeName(name, delimiter) => {
                s.push(*delimiter);
                s.append(name.as_str());
            },
            Token::NodeContent(content) => {
                s.append(content.as_str());
            },
            Token::Indentation(width, ch) => {
                let mut k: usize = 0;
                while k < *width
                    invariant
                        0 <= k <= *width,
                        s@ == before + Seq::new(k as nat, |j: int| *ch),
                    decreases *width - k,
                {
                    s.push(*ch);
                    k = k + 1;
                    assert(s@ =~= before + Seq::new(k as nat, |j: int| *ch));
                }
            },
        }
        proof {
            let prefix = tokens@.subrange(0, i as int + 1);
            assert(prefix.drop_last() =~= tokens@.subrange(0, i as int));
            assert(tokens_view(prefix).drop_last() =~= tokens_view(prefix.drop_last()));
            assert(s@ =~= before + token_text(tokens@[i as int]@));
        }
        i = i + 1;
    }
    assert(tokens@.subrange(0, n as int) =~= tokens@);
    s
}

/// Every indentation width among `ts` is at most `b`.
pub open spec fn widths_within(ts: Seq<TokenView>, b: nat) -> bool {
    forall|i: int| #![auto] 0 <= i < ts.len() ==> (ts[i] is Indentation ==> ts[i]->Indentation_0 <= b)
}

/// The part of the text read so far that no token holds yet.
pub open spec fn pending(s: Scan) -> Seq<char> {
    match s.state {
        TokenizerState::Start => seq![],
        TokenizerState::NewLine => s.content,
        TokenizerState::NodeContent => s.content,
        TokenizerState::Indentation => s.content + s.indentation,
        TokenizerState::NodeName => seq![s.delimiter] + s.name,
    }
}

/// Whether `t` is of the kind that position `i` of a token sequence holds:
/// indentation, node name and node content tokens, in turn.
pub open spec fn kind_fits(t: TokenView, i: int) -> bool {
    &&& i % 3 == 0 ==> t is Indentation
    &&& i % 3 == 1 ==> t is NodeName
    &&& i % 3 == 2 ==> t is NodeContent
}

/// The tokens come as indentation, node name and node content tokens, in turn.
pub open spec fn well_shaped(ts: Seq<TokenView>) -> bool {
    forall|i: int| 0 <= i < ts.len() ==> kind_fits(#[trigger] ts[i], i)
}

/// What holds of the tokenizer's state between any two input items.
pub open spec fn scan_wf(s: Scan) -> bool {
    &&& well_shaped(s.tokens)
    &&& s.state == TokenizerState::NodeName ==> s.tokens.len() % 3 == 1
    &&& (s.state == TokenizerState::NewLine || s.state == TokenizerState::NodeContent || s.state
        == TokenizerState::Indentation) ==> s.tokens.len() % 3 == 2
    &&& s.state == TokenizerState::Start ==> s.tokens.len() == 0 && s.content.len() == 0
    &&& s.state != TokenizerState::Indentation ==> s.indentation.len() == 0
    &&& s.state == TokenizerState::Indentation ==> forall|i: int|
        0 <= i < s.indentation.len() ==> s.indentation[i] == WS || s.indentation[i] == TAB
    &&& s.state != TokenizerState::NodeName ==> s.name.len() == 0
    &&& s.state == TokenizerState::NodeName ==> s.content.len() == 0
}

proof fn lemma_joined_push(ts: Seq<TokenView>, t: TokenView)
    ensures
        joined(ts.push(t)) == joined(ts) + token_text(t),
        well_shaped(ts) && kind_fits(t, ts.len() as int) ==> well_shaped(ts.push(t)),
{
    assert(ts.push(t).drop_last() =~= ts);
    if well_shaped(ts) && kind_fits(t, ts.len() as int) {
        assert forall|i: int| 0 <= i < ts.push(t).len() implies kind_fits(
            #[trigger] ts.push(t)[i],
            i,
        ) by {
            if i < ts.len() {
                assert(ts.push(t)[i] == ts[i]);
            }
        }
    }
}

pub proof fn lemma_step(s: Scan, m: AnnotatedChar, b: nat)
    requires
        scan_wf(s),
        step(s, m) is Ok,
        s.indentation.len() < b,
        b < usize::MAX,
        widths_within(s.tokens, b),
    ensures
        scan_wf(step(s, m)->Ok_0),
        joined(step(s, m)->Ok_0.tokens) + pending(step(s, m)->Ok_0) == joined(s.tokens) + pending(s)
            + m.text(),
        step(s, m)->Ok_0.indentation.len() <= s.indentation.len() + 1,
        widths_within(step(s, m)->Ok_0.tokens, b),
{
    let n = step(s, m)->Ok_0;
    let empty = Seq::<char>::empty();
    assert(token_text(TokenView::Indentation(0, NULL)) =~= empty);
    match s.state {
        TokenizerState::Start => {
            lemma_joined_push(s.tokens, TokenView::Indentation(0, NULL));
            assert(s.tokens.push(TokenView::Indentation(0, NULL)).drop_last() =~= s.tokens);
            assert(joined(s.tokens) =~= empty);
            assert(joined(n.tokens) + pending(n) =~= joined(s.tokens) + pending(s) + m.text());
        },
        TokenizerState::NewLine => {
            if n.state == TokenizerState::NodeName {
                let t1 = s.tokens.push(TokenView::NodeContent(s.content));
                lemma_joined_push(s.tokens, TokenView::NodeContent(s.content));
                lemma_joined_push(t1, TokenView::Indentation(0, NULL));
            }
            assert(joined(n.tokens) + pending(n) =~= joined(s.tokens) + pending(s) + m.text());
        },
        TokenizerState::Indentation => {
            if n.state == TokenizerState::NodeName {
                let t = indentation_token(s.indentation, s.indent_char)->Ok_0;
                let t1 = s.tokens.push(TokenView::NodeContent(s.content));
                lemma_joined_push(s.tokens, TokenView::NodeContent(s.content));
                lemma_joined_push(t1, t);
                assert(token_text(t) =~= s.indentation);
            }
            assert(joined(n.tokens) + pending(n) =~= joined(s.tokens) + pending(s) + m.text());
        },
        TokenizerState::NodeName => {
            if n.tokens.len() > s.tokens.len() {
                lemma_joined_push(s.tokens, TokenView::NodeName(s.name, s.delimiter));
            }
            assert(joined(n.tokens) + pending(n) =~= joined(s.tokens) + pending(s) + m.text());
        },
        TokenizerState::NodeContent => {
            assert(joined(n.tokens) + pending(n) =~= joined(s.tokens) + pending(s) + m.text());
        },
    }
}

pub proof fn lemma_run(s: Scan, ms: Seq<AnnotatedChar>, b: nat)
    requires
        scan_wf(s),
        s.indentation.len() + ms.len() <= b,
        b < usize::MAX,
        widths_within(s.tokens, b),
    ensures
        run(s, ms) is Ok ==> joined(run(s, ms)->Ok_0) == joined(s.tokens) + pending(s) + text_of(ms),
        run(s, ms) is Ok ==> widths_within(run(s, ms)->Ok_0, b),
        run(s, ms) is Ok ==> well_shaped(run(s, ms)->Ok_0) && run(s, ms)->Ok_0.len() % 3 == 0,
    decreases ms.len(),
{
    if ms.len() == 0 {
        if s.state == TokenizerState::NewLine {
            lemma_joined_push(s.tokens, TokenView::NodeContent(s.content));
            assert(text_of(ms) =~= seq![]);
            assert(joined(run(s, ms)->Ok_0) =~= joined(s.tokens) + pending(s) + text_of(ms));
        }
    } else if step(s, ms[0]) is Ok {
        let n = step(s, ms[0])->Ok_0;
        lemma_step(s, ms[0], b);
        lemma_run(n, ms.drop_first(), b);
        assert(ms =~= seq![ms[0]] + ms.drop_first());
        lemma_text_of_concat(seq![ms[0]], ms.drop_first());
        lemma_text_of_single(ms[0]);
        assert(text_of(ms) == ms[0].text() + text_of(ms.drop_first()));
        if run(s, ms) is Ok {
            assert(joined(run(s, ms)->Ok_0) =~= joined(s.tokens) + pending(s) + text_of(ms));
        }
    }
}

/// The tokens of a text accepted in dialect `d` stand for the text, come in
/// indentation, node name and node content triples, and are no wider than
/// the text.
pub proof fn lemma_tokens_in(d: Dialect, text: Seq<char>)
    requires
        text.len() < usize::MAX,
    ensures
        tokens_in(d, text) is Ok ==> joined(tokens_in(d, text)->Ok_0) == text,
        tokens_in(d, text) is Ok ==> widths_within(tokens_in(d, text)->Ok_0, text.len()),
        tokens_in(d, text) is Ok ==> well_shaped(tokens_in(d, text)->Ok_0) && tokens_in(
            d,
            text,
        )->Ok_0.len() % 3 == 0,
{
    lemma_annotate_text(text, 1, 0);
    lemma_run(scan_start(d), annotations(text), text.len());
    assert(joined(seq![]) =~= Seq::<char>::empty());
    assert(pending(scan_start(d)) =~= Seq::<char>::empty());
    assert(scan_start(d).tokens =~= seq![]);
}

/// An indentation run that holds both a space and a tab is rejected with
/// [IdmlError::InconsistentIndentation], whatever the document's indentation
/// character so far.
pub proof fn lemma_mixed_run_rejected(run: Seq<char>, indent_char: char, i: int, j: int)
    requires
        0 <= i < run.len(),
        0 <= j < run.len(),
        run[i] == WS,
        run[j] == TAB,
    ensures
        indentation_token(run, indent_char) == Err::<TokenView, IdmlError>(
            IdmlError::InconsistentIndentation,
        ),
{
    assert(!all_are(run, WS));
    assert(!all_are(run, TAB));
}

/// Token round trip: joining the tokens of a text accepted in any dialect
/// gives back the text, byte for byte.
pub proof fn lemma_token_round_trip(d: Dialect, text: Seq<char>)
    requires
        text.len() < usize::MAX,
        tokens_in(d, text) is Ok,
    ensures
        joined(tokens_in(d, text)->Ok_0) == text,
{
    lemma_tokens_in(d, text);
}

} // verus!
