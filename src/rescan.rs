//! What the tokenizer accepts, node by node: the facts that let a document
//! be tokenized again after its indentation is written anew.

use vstd::prelude::*;
use crate::defs::{NULL, TAB, WS};
use crate::lines::{annotate, annotations, first_item, lemma_annotate_text, AnnotatedChar, LineEnding};
use crate::node::{node_text, Tree};
use crate::tokenizer::{
    finish, in_name, indentation_token, indents, is_allowed, kind_fits, lemma_step, lemma_tokens_in,
    may_delimit, name_may_end, run, scan_start, scan_wf, step, tokens_in, well_shaped,
    widths_within, Dialect, Scan, TokenView, TokenizerState,
};

verus! {

/// Line ending characters.
pub open spec fn line_end(c: char) -> bool {
    c == '\n' || c == '\r'
}

/// Characters that end a node name.
pub open spec fn ends_name(c: char) -> bool {
    c == WS || c == TAB || line_end(c)
}

/// The tokenizer's state after reading the content characters `c` from
/// state `ph`, in a document of dialect `d` delimited by `delim`; `None` when
/// a node would start in them.
pub open spec fn content_phase(d: Dialect, delim: char, ph: TokenizerState, c: Seq<char>) -> Option<
    TokenizerState,
>
    decreases c.len(),
{
    if c.len() == 0 {
        Some(ph)
    } else {
        let ch = c[0];
        let rest = c.drop_first();
        if line_end(ch) {
            content_phase(d, delim, TokenizerState::NewLine, rest)
        } else if ph == TokenizerState::NewLine || ph == TokenizerState::Indentation {
            if ch == delim {
                None
            } else if indents(d, ch) {
                content_phase(d, delim, TokenizerState::Indentation, rest)
            } else {
                content_phase(d, delim, TokenizerState::NodeContent, rest)
            }
        } else {
            content_phase(d, delim, TokenizerState::NodeContent, rest)
        }
    }
}

/// Text that the tokenizer reads as the whole content of one node: it ends
/// the node's name, starts no node, and ends with a line ending.
pub open spec fn content_ok(d: Dialect, delim: char, c: Seq<char>) -> bool {
    c.len() > 0 && ends_name(c[0]) && content_phase(d, delim, TokenizerState::NodeContent, c)
        == Some(TokenizerState::NewLine)
}

/// A node name that the tokenizer reads in dialect `d`.
pub open spec fn name_ok(d: Dialect, name: Seq<char>) -> bool {
    name_may_end(d, name) && forall|j: int| 0 <= j < name.len() ==> in_name(d, #[trigger] name[j])
}

/// A node name or node content token that the tokenizer reads back, in a
/// document of dialect `d` delimited by `delim`.
pub open spec fn token_ok(d: Dialect, delim: char, t: TokenView) -> bool {
    match t {
        TokenView::NodeName(name, dl) => dl == delim && name_ok(d, name),
        TokenView::NodeContent(c) => content_ok(d, delim, c),
        TokenView::Indentation(_, _) => true,
    }
}

/// Node name and node content tokens that the tokenizer reads back.
pub open spec fn tokens_ok(d: Dialect, delim: char, ts: Seq<TokenView>) -> bool {
    forall|i: int| 0 <= i < ts.len() ==> token_ok(d, delim, #[trigger] ts[i])
}

/// What holds of the tokenizer's state while it reads a text that it accepts.
pub open spec fn accepted_wf(s: Scan) -> bool {
    &&& s.state != TokenizerState::Start ==> may_delimit(s.dialect, s.delimiter)
    &&& s.state != TokenizerState::Start ==> s.tokens.len() >= 1 && s.tokens[0]
        == TokenView::Indentation(0, NULL)
    &&& tokens_ok(s.dialect, s.delimiter, s.tokens)
    &&& s.state == TokenizerState::NodeName ==> forall|j: int|
        0 <= j < s.name.len() ==> in_name(s.dialect, #[trigger] s.name[j])
    &&& (s.state == TokenizerState::NewLine || s.state == TokenizerState::NodeContent) ==> (
    s.content.len() > 0 && ends_name(s.content[0]) && content_phase(
        s.dialect,
        s.delimiter,
        TokenizerState::NodeContent,
        s.content,
    ) == Some(s.state))
    &&& s.state == TokenizerState::Indentation ==> content_ok(s.dialect, s.delimiter, s.content)
        && forall|j: int| 0 <= j < s.indentation.len() ==> indents(s.dialect, #[trigger] s.indentation[j])
}

/// The tokenizer's state after reading the items `ms`, without the end of input.
pub open spec fn steps(s: Scan, ms: Seq<AnnotatedChar>) -> Result<Scan, crate::errors::IdmlError>
    decreases ms.len(),
{
    if ms.len() == 0 {
        Ok(s)
    } else {
        match step(s, ms[0]) {
            Ok(next) => steps(next, ms.drop_first()),
            Err(e) => Err(e),
        }
    }
}

/// No annotated item is a line ending character on its own.
pub open spec fn no_bare_line_ends(ms: Seq<AnnotatedChar>) -> bool {
    forall|i: int| #![auto] 0 <= i < ms.len() ==> !(ms[i] is Character && line_end(ms[i]->Character_0))
}

pub proof fn lemma_run_steps(s: Scan, ms: Seq<AnnotatedChar>)
    ensures
        run(s, ms) == match steps(s, ms) {
            Ok(t) => finish(t),
            Err(e) => Err(e),
        },
    decreases ms.len(),
{
    if ms.len() > 0 {
        if step(s, ms[0]) is Ok {
            lemma_run_steps(step(s, ms[0])->Ok_0, ms.drop_first());
        }
    }
}

pub proof fn lemma_content_phase_concat(
    d: Dialect,
    delim: char,
    ph: TokenizerState,
    a: Seq<char>,
    b: Seq<char>,
)
    ensures
        content_phase(d, delim, ph, a + b) == match content_phase(d, delim, ph, a) {
            Some(p) => content_phase(d, delim, p, b),
            None => None,
        },
    decreases a.len(),
{
    if a.len() == 0 {
        assert(a + b =~= b);
    } else {
        assert((a + b).drop_first() =~= a.drop_first() + b);
        assert((a + b)[0] == a[0]);
        let ch = a[0];
        let p = if line_end(ch) {
            TokenizerState::NewLine
        } else if ph == TokenizerState::NewLine || ph == TokenizerState::Indentation {
            if indents(d, ch) {
                TokenizerState::Indentation
            } else {
                TokenizerState::NodeContent
            }
        } else {
            TokenizerState::NodeContent
        };
        lemma_content_phase_concat(d, delim, p, a.drop_first(), b);
    }
}

/// Annotated items never hold a line ending character as a character.
pub proof fn lemma_annotate_no_bare_line_ends(s: Seq<char>, row: nat, column: nat)
    ensures
        no_bare_line_ends(annotate(s, row, column)),
    decreases s.len(),
{
    if s.len() > 0 {
        let (m, k, r, c) = first_item(s, row, column);
        let rest = s.subrange(k, s.len() as int);
        lemma_annotate_no_bare_line_ends(rest, r, c);
        let ms = annotate(s, row, column);
        assert forall|i: int| #![auto] 0 <= i < ms.len() implies !(ms[i] is Character && line_end(
            ms[i]->Character_0,
        )) by {
            if i > 0 {
                assert(ms[i] == annotate(rest, r, c)[i - 1]);
            }
        }
    }
}

proof fn lemma_phase_line_ending(d: Dialect, delim: char, ph: TokenizerState, e: LineEnding)
    ensures
        content_phase(d, delim, ph, e.text()) == Some(TokenizerState::NewLine),
{
    let t = e.text();
    let nl = TokenizerState::NewLine;
    match e {
        LineEnding::CrLf => {
            assert(t.drop_first() =~= seq!['\n']);
            assert(t.drop_first().drop_first() =~= Seq::<char>::empty());
            assert(content_phase(d, delim, nl, t.drop_first()) == content_phase(
                d,
                delim,
                nl,
                t.drop_first().drop_first(),
            ));
        },
        _ => {
            assert(t.drop_first() =~= Seq::<char>::empty());
        },
    }
}

proof fn lemma_phase_char(d: Dialect, delim: char, ph: TokenizerState, ch: char)
    requires
        !line_end(ch),
    ensures
        content_phase(d, delim, ph, seq![ch]) == (if ph == TokenizerState::NewLine || ph
            == TokenizerState::Indentation {
            if ch == delim {
                None
            } else if indents(d, ch) {
                Some(TokenizerState::Indentation)
            } else {
                Some(TokenizerState::NodeContent)
            }
        } else {
            Some(TokenizerState::NodeContent)
        }),
{
    let e = Seq::<char>::empty();
    assert(seq![ch].drop_first() =~= e);
    assert(seq![ch][0] == ch);
    assert(content_phase(d, delim, TokenizerState::Indentation, e) == Some(
        TokenizerState::Indentation,
    ));
    assert(content_phase(d, delim, TokenizerState::NodeContent, e) == Some(
        TokenizerState::NodeContent,
    ));
}

/// A run of indentation characters keeps the tokenizer at the beginning of a line.
proof fn lemma_phase_indent_run(d: Dialect, delim: char, ph: TokenizerState, run: Seq<char>)
    requires
        ph == TokenizerState::NewLine || ph == TokenizerState::Indentation,
        is_allowed(delim),
        forall|j: int| 0 <= j < run.len() ==> indents(d, #[trigger] run[j]),
    ensures
        content_phase(d, delim, ph, run) == Some(
            if run.len() == 0 {
                ph
            } else {
                TokenizerState::Indentation
            },
        ),
    decreases run.len(),
{
    if run.len() > 0 {
        assert(indents(d, run[0]));
        let rest = run.drop_first();
        assert forall|j: int| 0 <= j < rest.len() implies indents(d, #[trigger] rest[j]) by {
            assert(rest[j] == run[j + 1]);
        }
        lemma_phase_indent_run(d, delim, TokenizerState::Indentation, rest);
    }
}

proof fn lemma_tokens_ok_push(d: Dialect, delim: char, ts: Seq<TokenView>, t: TokenView)
    requires
        tokens_ok(d, delim, ts),
        token_ok(d, delim, t),
    ensures
        tokens_ok(d, delim, ts.push(t)),
{
    assert forall|i: int| 0 <= i < ts.push(t).len() implies token_ok(d, delim, #[trigger] ts.push(t)[i]) by {
        if i < ts.len() {
            assert(ts.push(t)[i] == ts[i]);
        }
    }
}

/// Reading one more item of an accepted text keeps [accepted_wf].
proof fn lemma_step_accepted(s: Scan, m: AnnotatedChar)
    requires
        scan_wf(s),
        accepted_wf(s),
        step(s, m) is Ok,
        !(m is Character && line_end(m->Character_0)),
    ensures
        accepted_wf(step(s, m)->Ok_0),
{
    let n = step(s, m)->Ok_0;
    let d = s.dialect;
    let delim = s.delimiter;
    let nc = TokenizerState::NodeContent;
    match s.state {
        TokenizerState::Start => {
            assert(s.tokens.push(TokenView::Indentation(0, crate::defs::NULL)).len() == 1);
            assert(tokens_ok(n.dialect, n.delimiter, n.tokens)) by {
                assert forall|i: int| 0 <= i < n.tokens.len() implies token_ok(
                    n.dialect,
                    n.delimiter,
                    #[trigger] n.tokens[i],
                ) by {
                    assert(n.tokens[i] == TokenView::Indentation(0, crate::defs::NULL));
                }
            }
        },
        TokenizerState::NewLine => {
            match m {
                AnnotatedChar::Character(ch, _, _) => {
                    if ch == delim {
                        let t1 = s.tokens.push(TokenView::NodeContent(s.content));
                        lemma_tokens_ok_push(d, delim, s.tokens, TokenView::NodeContent(s.content));
                        lemma_tokens_ok_push(d, delim, t1, TokenView::Indentation(0, crate::defs::NULL));
                    } else if indents(d, ch) {
                        assert(n.indentation =~= seq![ch]);
                    } else {
                        lemma_content_phase_concat(d, delim, nc, s.content, seq![ch]);
                        lemma_phase_char(d, delim, TokenizerState::NewLine, ch);
                        assert(n.content =~= s.content + seq![ch]);
                        assert(n.content[0] == s.content[0]);
                    }
                },
                AnnotatedChar::LineEnding(e, _, _) => {
                    lemma_content_phase_concat(d, delim, nc, s.content, e.text());
                    lemma_phase_line_ending(d, delim, TokenizerState::NewLine, e);
                    assert(n.content[0] == s.content[0]);
                },
            }
        },
        TokenizerState::Indentation => {
            lemma_content_phase_concat(d, delim, nc, s.content, s.indentation);
            lemma_phase_indent_run(d, delim, TokenizerState::NewLine, s.indentation);
            let p = if s.indentation.len() == 0 {
                TokenizerState::NewLine
            } else {
                TokenizerState::Indentation
            };
            match m {
                AnnotatedChar::Character(ch, _, _) => {
                    if ch == delim {
                        let t = indentation_token(s.indentation, s.indent_char)->Ok_0;
                        let t1 = s.tokens.push(TokenView::NodeContent(s.content));
                        lemma_tokens_ok_push(d, delim, s.tokens, TokenView::NodeContent(s.content));
                        lemma_tokens_ok_push(d, delim, t1, t);
                    } else if indents(d, ch) {
                        assert forall|j: int| 0 <= j < n.indentation.len() implies indents(
                            d,
                            #[trigger] n.indentation[j],
                        ) by {
                            if j < s.indentation.len() {
                                assert(n.indentation[j] == s.indentation[j]);
                            }
                        }
                    } else {
                        lemma_content_phase_concat(d, delim, nc, s.content + s.indentation, seq![ch]);
                        lemma_phase_char(d, delim, p, ch);
                        assert(n.content =~= s.content + s.indentation + seq![ch]);
                        assert(n.content[0] == s.content[0]);
                    }
                },
                AnnotatedChar::LineEnding(e, _, _) => {
                    lemma_content_phase_concat(d, delim, nc, s.content + s.indentation, e.text());
                    lemma_phase_line_ending(d, delim, p, e);
                    assert(n.content[0] == s.content[0]);
                },
            }
        },
        TokenizerState::NodeName => {
            let name_token = TokenView::NodeName(s.name, delim);
            match m {
                AnnotatedChar::Character(ch, _, _) => {
                    if (ch == WS || ch == TAB) && name_may_end(d, s.name) {
                        lemma_tokens_ok_push(d, delim, s.tokens, name_token);
                        assert(n.content =~= seq![ch]);
                        lemma_phase_char(d, delim, nc, ch);
                    } else {
                        assert forall|j: int| 0 <= j < n.name.len() implies in_name(
                            d,
                            #[trigger] n.name[j],
                        ) by {
                            if j < s.name.len() {
                                assert(n.name[j] == s.name[j]);
                            }
                        }
                    }
                },
                AnnotatedChar::LineEnding(e, _, _) => {
                    lemma_tokens_ok_push(d, delim, s.tokens, name_token);
                    assert(n.content =~= e.text());
                    lemma_phase_line_ending(d, delim, nc, e);
                },
            }
        },
        TokenizerState::NodeContent => {
            match m {
                AnnotatedChar::Character(ch, _, _) => {
                    lemma_content_phase_concat(d, delim, nc, s.content, seq![ch]);
                    lemma_phase_char(d, delim, nc, ch);
                    assert(n.content =~= s.content + seq![ch]);
                    assert(n.content[0] == s.content[0]);
                },
                AnnotatedChar::LineEnding(e, _, _) => {
                    lemma_content_phase_concat(d, delim, nc, s.content, e.text());
                    lemma_phase_line_ending(d, delim, nc, e);
                    assert(n.content[0] == s.content[0]);
                },
            }
        },
    }
}

/// Reading the items of an accepted text keeps [accepted_wf].
proof fn lemma_steps_accepted(s: Scan, ms: Seq<AnnotatedChar>, b: nat)
    requires
        scan_wf(s),
        accepted_wf(s),
        no_bare_line_ends(ms),
        s.indentation.len() + ms.len() <= b,
        b < usize::MAX,
        widths_within(s.tokens, b),
    ensures
        steps(s, ms) is Ok ==> scan_wf(steps(s, ms)->Ok_0) && accepted_wf(steps(s, ms)->Ok_0)
            && steps(s, ms)->Ok_0.dialect == s.dialect,
    decreases ms.len(),
{
    if ms.len() > 0 && step(s, ms[0]) is Ok {
        let n = step(s, ms[0])->Ok_0;
        assert(!(ms[0] is Character && line_end(ms[0]->Character_0)));
        lemma_step(s, ms[0], b);
        lemma_step_accepted(s, ms[0]);
        let rest = ms.drop_first();
        assert forall|i: int| #![auto] 0 <= i < rest.len() implies !(rest[i] is Character
            && line_end(rest[i]->Character_0)) by {
            assert(rest[i] == ms[i + 1]);
        }
        lemma_steps_accepted(n, rest, b);
    }
}

/// The tokens of a text accepted in dialect `d` are names and contents that
/// the tokenizer reads back, with one delimiter, which `d` accepts.
pub proof fn lemma_accepted_tokens(d: Dialect, text: Seq<char>)
    requires
        text.len() < usize::MAX,
        tokens_in(d, text) is Ok,
    ensures
        ({
            let ts = tokens_in(d, text)->Ok_0;
            &&& ts.len() >= 3
            &&& ts[0] == TokenView::Indentation(0, NULL)
            &&& well_shaped(ts)
            &&& ts.len() % 3 == 0
            &&& may_delimit(d, ts[1]->NodeName_1)
            &&& tokens_ok(d, ts[1]->NodeName_1, ts)
        }),
{
    let ms = annotations(text);
    lemma_annotate_text(text, 1, 0);
    lemma_annotate_no_bare_line_ends(text, 1, 0);
    lemma_tokens_in(d, text);
    let s0 = scan_start(d);
    lemma_run_steps(s0, ms);
    assert(s0.tokens =~= Seq::<TokenView>::empty());
    assert(tokens_ok(d, s0.delimiter, s0.tokens));
    lemma_steps_accepted(s0, ms, text.len());
    let t = steps(s0, ms)->Ok_0;
    let ts = tokens_in(d, text)->Ok_0;
    assert(t.state == TokenizerState::NewLine);
    assert(ts == t.tokens.push(TokenView::NodeContent(t.content)));
    lemma_tokens_ok_push(d, t.delimiter, t.tokens, TokenView::NodeContent(t.content));
    assert(ts.len() >= 3);
    assert(kind_fits(ts[1], 1));
    assert(token_ok(d, t.delimiter, ts[1]));
}

pub proof fn lemma_steps_concat(s: Scan, a: Seq<AnnotatedChar>, b: Seq<AnnotatedChar>)
    ensures
        steps(s, a + b) == match steps(s, a) {
            Ok(t) => steps(t, b),
            Err(e) => Err(e),
        },
    decreases a.len(),
{
    if a.len() == 0 {
        assert(a + b =~= b);
    } else {
        assert((a + b)[0] == a[0]);
        assert((a + b).drop_first() =~= a.drop_first() + b);
        if step(s, a[0]) is Ok {
            lemma_steps_concat(step(s, a[0])->Ok_0, a.drop_first(), b);
        }
    }
}

/// The row and column where the annotated items of `s` end.
pub open spec fn annotate_end(s: Seq<char>, row: nat, column: nat) -> (nat, nat)
    decreases s.len(),
{
    if s.len() == 0 {
        (row, column)
    } else {
        let (m, k, r, c) = first_item(s, row, column);
        annotate_end(s.subrange(k, s.len() as int), r, c)
    }
}

/// Annotating two texts one after the other is annotating them together,
/// unless a carriage return and a line feed meet where they join.
pub proof fn lemma_annotate_concat(a: Seq<char>, b: Seq<char>, row: nat, column: nat)
    requires
        a.len() == 0 || b.len() == 0 || !(a.last() == '\r' && b[0] == '\n'),
    ensures
        annotate(a + b, row, column) == annotate(a, row, column) + annotate(
            b,
            annotate_end(a, row, column).0,
            annotate_end(a, row, column).1,
        ),
    decreases a.len(),
{
    if a.len() == 0 {
        assert(a + b =~= b);
        assert(annotate(a, row, column) =~= Seq::<AnnotatedChar>::empty());
        assert(annotate(a + b, row, column) =~= annotate(a, row, column) + annotate(b, row, column));
    } else {
        let ab = a + b;
        assert(ab[0] == a[0]);
        if a.len() > 1 {
            assert(ab[1] == a[1]);
        }
        let (m, k, r, c) = first_item(a, row, column);
        assert(first_item(ab, row, column) == (m, k, r, c));
        let rest = a.subrange(k, a.len() as int);
        assert(ab.subrange(k, ab.len() as int) =~= rest + b);
        if rest.len() > 0 {
            assert(rest.last() == a.last());
        }
        lemma_annotate_concat(rest, b, r, c);
        assert(annotate(ab, row, column) =~= annotate(a, row, column) + annotate(
            b,
            annotate_end(a, row, column).0,
            annotate_end(a, row, column).1,
        ));
    }
}

/// Reading content text that starts no node produces no token: the text
/// joins the pending content, and the state follows [content_phase].
proof fn lemma_content_steps(s: Scan, text: Seq<char>, row: nat, column: nat)
    requires
        s.state == TokenizerState::NewLine || s.state == TokenizerState::NodeContent || s.state
            == TokenizerState::Indentation,
        s.state != TokenizerState::Indentation ==> s.indentation.len() == 0,
        forall|j: int| 0 <= j < s.indentation.len() ==> indents(s.dialect, #[trigger] s.indentation[j]),
        is_allowed(s.delimiter),
        content_phase(s.dialect, s.delimiter, s.state, text) is Some,
    ensures
        steps(s, annotate(text, row, column)) is Ok,
        ({
            let t = steps(s, annotate(text, row, column))->Ok_0;
            &&& t.state == content_phase(s.dialect, s.delimiter, s.state, text)->Some_0
            &&& t.content + t.indentation == s.content + s.indentation + text
            &&& t.state != TokenizerState::Indentation ==> t.indentation.len() == 0
            &&& forall|j: int| 0 <= j < t.indentation.len() ==> indents(t.dialect, #[trigger] t.indentation[j])
            &&& t.tokens == s.tokens
            &&& t.dialect == s.dialect
            &&& t.delimiter == s.delimiter
            &&& t.indent_char == s.indent_char
            &&& t.name == s.name
        }),
    decreases text.len(),
{
    if text.len() > 0 {
        let d = s.dialect;
        let delim = s.delimiter;
        let (m, k, r, c) = first_item(text, row, column);
        let rest = text.subrange(k, text.len() as int);
        let ms = annotate(text, row, column);
        assert(ms[0] == m);
        assert(ms.drop_first() =~= annotate(rest, r, c));
        let n = step(s, m)->Ok_0;
        let ch = text[0];
        if line_end(ch) {
            let e = m->LineEnding_0;
            assert(text =~= e.text() + rest);
            lemma_content_phase_concat(d, delim, s.state, e.text(), rest);
            lemma_phase_line_ending(d, delim, s.state, e);
            assert(step(s, m) is Ok);
            assert(n.state == TokenizerState::NewLine);
            assert(n.content + n.indentation =~= s.content + s.indentation + e.text());
        } else {
            assert(m == AnnotatedChar::Character(ch, row as usize, (column + 1) as usize));
            assert(rest =~= text.drop_first());
            assert(text =~= seq![ch] + rest);
            lemma_content_phase_concat(d, delim, s.state, seq![ch], rest);
            lemma_phase_char(d, delim, s.state, ch);
            assert(step(s, m) is Ok);
            assert(n.content + n.indentation =~= s.content + s.indentation + seq![ch]);
            if n.state == TokenizerState::Indentation {
                assert forall|j: int| 0 <= j < n.indentation.len() implies indents(
                    d,
                    #[trigger] n.indentation[j],
                ) by {
                    if j < s.indentation.len() {
                        assert(n.indentation[j] == s.indentation[j]);
                    } else {
                        assert(n.indentation[j] == ch);
                    }
                }
            }
        }
        lemma_content_steps(n, rest, r, c);
        let t = steps(n, annotate(rest, r, c))->Ok_0;
        assert(t.content + t.indentation =~= s.content + s.indentation + text);
    }
}

/// Name characters are neither whitespace nor line endings.
proof fn lemma_in_name(d: Dialect, c: char)
    requires
        in_name(d, c),
    ensures
        c != WS && c != TAB && !line_end(c),
{
}

/// Reading the characters of a name adds them to the name.
proof fn lemma_name_steps(s: Scan, name: Seq<char>, row: nat, column: nat)
    requires
        s.state == TokenizerState::NodeName,
        forall|j: int| 0 <= j < name.len() ==> in_name(s.dialect, #[trigger] name[j]),
    ensures
        steps(s, annotate(name, row, column)) == Ok::<Scan, crate::errors::IdmlError>(
            Scan { name: s.name + name, ..s },
        ),
    decreases name.len(),
{
    if name.len() == 0 {
        assert(s.name + name =~= s.name);
    } else {
        let c = name[0];
        lemma_in_name(s.dialect, c);
        let (m, k, r, col) = first_item(name, row, column);
        let rest = name.subrange(1, name.len() as int);
        let ms = annotate(name, row, column);
        assert(ms[0] == m);
        assert(ms.drop_first() =~= annotate(rest, r, col));
        let n = step(s, m)->Ok_0;
        assert(n == Scan { name: s.name.push(c), ..s });
        assert forall|j: int| 0 <= j < rest.len() implies in_name(s.dialect, #[trigger] rest[j]) by {
            assert(rest[j] == name[j + 1]);
        }
        lemma_name_steps(n, rest, r, col);
        assert(s.name.push(c) + rest =~= s.name + name);
    }
}

/// Reading a run of indentation characters at the beginning of a line
/// collects it as the line's indentation.
proof fn lemma_indent_steps(s: Scan, ch: char, w: nat, row: nat, column: nat)
    requires
        s.state == TokenizerState::NewLine || s.state == TokenizerState::Indentation,
        s.state == TokenizerState::NewLine ==> s.indentation.len() == 0,
        indents(s.dialect, ch),
        ch != s.delimiter,
    ensures
        steps(s, annotate(Seq::new(w, |i: int| ch), row, column)) == Ok::<
            Scan,
            crate::errors::IdmlError,
        >(
            if w == 0 {
                s
            } else {
                Scan {
                    state: TokenizerState::Indentation,
                    indentation: s.indentation + Seq::new(w, |i: int| ch),
                    ..s
                }
            },
        ),
    decreases w,
{
    let run = Seq::new(w, |i: int| ch);
    if w == 0 {
        assert(run =~= Seq::<char>::empty());
    } else {
        let (m, k, r, col) = first_item(run, row, column);
        let rest = run.subrange(1, run.len() as int);
        assert(rest =~= Seq::new((w - 1) as nat, |i: int| ch));
        let ms = annotate(run, row, column);
        assert(ms[0] == m);
        assert(ms.drop_first() =~= annotate(rest, r, col));
        let n = step(s, m)->Ok_0;
        assert(n == Scan {
            state: TokenizerState::Indentation,
            indentation: s.indentation.push(ch),
            ..s
        });
        lemma_indent_steps(n, ch, (w - 1) as nat, r, col);
        assert(s.indentation.push(ch) + rest =~= s.indentation + run);
    }
}

/// Reading a node's name and content, right after its delimiter, produces
/// its name token and leaves its content pending.
proof fn lemma_name_content_steps(s: Scan, name: Seq<char>, content: Seq<char>, row: nat, column: nat)
    requires
        s.state == TokenizerState::NodeName,
        s.name.len() == 0,
        s.content.len() == 0,
        s.indentation.len() == 0,
        is_allowed(s.delimiter),
        name_ok(s.dialect, name),
        content_ok(s.dialect, s.delimiter, content),
    ensures
        steps(s, annotate(name + content, row, column)) == Ok::<Scan, crate::errors::IdmlError>(
            Scan {
                state: TokenizerState::NewLine,
                name: seq![],
                content,
                tokens: s.tokens.push(TokenView::NodeName(name, s.delimiter)),
                ..s
            },
        ),
{
    let d = s.dialect;
    let delim = s.delimiter;
    if name.len() > 0 {
        lemma_in_name(d, name.last());
    }
    lemma_annotate_concat(name, content, row, column);
    let (r1, c1) = annotate_end(name, row, column);
    lemma_steps_concat(s, annotate(name, row, column), annotate(content, r1, c1));
    lemma_name_steps(s, name, row, column);
    let s1 = Scan { name: s.name + name, ..s };
    assert(s.name + name =~= name);
    // The first item of the content ends the name.
    let (m, k, r2, c2) = first_item(content, r1, c1);
    let rest = content.subrange(k, content.len() as int);
    let ms = annotate(content, r1, c1);
    assert(ms[0] == m);
    assert(ms.drop_first() =~= annotate(rest, r2, c2));
    let n = step(s1, m)->Ok_0;
    let ch = content[0];
    if line_end(ch) {
        let e = m->LineEnding_0;
        assert(content =~= e.text() + rest);
        lemma_content_phase_concat(d, delim, TokenizerState::NodeContent, e.text(), rest);
        lemma_phase_line_ending(d, delim, TokenizerState::NodeContent, e);
        assert(n.content =~= e.text());
    } else {
        assert(rest =~= content.drop_first());
        assert(content =~= seq![ch] + rest);
        lemma_content_phase_concat(d, delim, TokenizerState::NodeContent, seq![ch], rest);
        lemma_phase_char(d, delim, TokenizerState::NodeContent, ch);
        assert(n.content =~= seq![ch]);
    }
    assert(step(s1, m) is Ok);
    assert(n.tokens == s.tokens.push(TokenView::NodeName(name, delim)));
    lemma_content_steps(n, rest, r2, c2);
    let t = steps(n, annotate(rest, r2, c2))->Ok_0;
    assert(content_phase(d, delim, n.state, rest) == Some(TokenizerState::NewLine));
    assert(t.state == TokenizerState::NewLine);
    assert(t.indentation.len() == 0);
    assert(t.indentation =~= s.indentation);
    assert(t.content =~= t.content + t.indentation);
    assert(n.content + n.indentation + rest =~= content);
    assert(t.content == content);
    assert(t.name =~= Seq::<char>::empty());
    assert(t == Scan {
        state: TokenizerState::NewLine,
        name: seq![],
        content,
        tokens: s.tokens.push(TokenView::NodeName(name, s.delimiter)),
        ..s
    });
}

/// The indentation width of a node at `level`: `indent` per level below the first.
pub open spec fn indent_width(level: usize, indent: nat) -> nat {
    if level > 1 {
        ((level - 1) * indent) as nat
    } else {
        0
    }
}

/// The indentation token of a node line indented by `w` copies of `ch`.
pub open spec fn width_token(w: nat, ch: char) -> TokenView {
    TokenView::Indentation(w as usize, if w == 0 { NULL } else { ch })
}

/// The tokenizer after reading node `t`, written with `indent` copies of `ch`
/// per level, at the beginning of a line after the content of a node.
pub open spec fn after_node(s: Scan, t: Tree, indent: nat, ch: char) -> Scan {
    let w = indent_width(t.level, indent);
    Scan {
        state: TokenizerState::NewLine,
        indentation: seq![],
        name: seq![],
        content: t.content,
        indent_char: if w == 0 {
            s.indent_char
        } else {
            ch
        },
        tokens: s.tokens.push(TokenView::NodeContent(s.content)).push(width_token(w, ch)).push(
            TokenView::NodeName(t.name, s.delimiter),
        ),
        ..s
    }
}

proof fn lemma_single_char_annotate(c: char, row: nat, column: nat)
    requires
        !line_end(c),
    ensures
        annotate(seq![c], row, column) == seq![
            AnnotatedChar::Character(c, row as usize, (column + 1) as usize),
        ],
{
    let (m, k, r, col) = first_item(seq![c], row, column);
    assert(seq![c].subrange(1, 1) =~= Seq::<char>::empty());
    assert(annotate(Seq::<char>::empty(), r, col) =~= Seq::<AnnotatedChar>::empty());
    assert(annotate(seq![c], row, column) =~= seq![m]);
}

proof fn lemma_steps_single(s: Scan, m: AnnotatedChar)
    ensures
        steps(s, seq![m]) == step(s, m),
{
    assert(seq![m][0] == m);
    assert(seq![m].drop_first() =~= Seq::<AnnotatedChar>::empty());
    if step(s, m) is Ok {
        assert(steps(step(s, m)->Ok_0, Seq::<AnnotatedChar>::empty()) == Ok::<
            Scan,
            crate::errors::IdmlError,
        >(step(s, m)->Ok_0));
    }
}

/// Reading a node that follows the content of another gives that content's
/// token, then the node's indentation and name tokens.
proof fn lemma_node_steps(s: Scan, t: Tree, indent: nat, ch: char, row: nat, column: nat)
    requires
        s.state == TokenizerState::NewLine,
        s.indentation.len() == 0,
        s.name.len() == 0,
        is_allowed(s.delimiter),
        indents(s.dialect, ch),
        s.indent_char == NULL || s.indent_char == ch,
        t.delimiter == s.delimiter,
        name_ok(s.dialect, t.name),
        content_ok(s.dialect, s.delimiter, t.content),
        indent_width(t.level, indent) < usize::MAX,
    ensures
        steps(s, annotate(node_text(t, indent, ch), row, column)) == Ok::<
            Scan,
            crate::errors::IdmlError,
        >(after_node(s, t, indent, ch)),
{
    let delim = s.delimiter;
    let w = indent_width(t.level, indent);
    let run = Seq::new(w, |i: int| ch);
    let a = run + seq![delim];
    let b = t.name + t.content;
    assert(node_text(t, indent, ch) =~= a + b);
    lemma_annotate_concat(a, b, row, column);
    let (r1, c1) = annotate_end(a, row, column);
    lemma_annotate_concat(run, seq![delim], row, column);
    let (r0, c0) = annotate_end(run, row, column);
    lemma_single_char_annotate(delim, r0, c0);
    let m = AnnotatedChar::Character(delim, r0 as usize, (c0 + 1) as usize);
    lemma_steps_concat(s, annotate(a, row, column), annotate(b, r1, c1));
    lemma_steps_concat(s, annotate(run, row, column), seq![m]);
    lemma_indent_steps(s, ch, w, row, column);
    let s1 = steps(s, annotate(run, row, column))->Ok_0;
    assert(seq![m].drop_first() =~= Seq::<AnnotatedChar>::empty());
    let s2 = step(s1, m)->Ok_0;
    lemma_steps_single(s1, m);
    if w > 0 {
        assert(s1.indentation =~= run);
        if ch == WS {
            assert(crate::tokenizer::all_are(run, WS));
        } else {
            assert(run[0] == TAB);
            assert(!crate::tokenizer::all_are(run, WS));
            assert(crate::tokenizer::all_are(run, TAB));
        }
        assert(indentation_token(run, s.indent_char) == Ok::<TokenView, crate::errors::IdmlError>(
            width_token(w, ch),
        ));
    } else {
        assert(width_token(w, ch) == TokenView::Indentation(0, NULL));
    }
    assert(steps(s, annotate(a, row, column)) == Ok::<Scan, crate::errors::IdmlError>(s2));
    assert(s2.content =~= Seq::<char>::empty());
    assert(s2.indentation =~= Seq::<char>::empty());
    lemma_name_content_steps(s2, t.name, t.content, r1, c1);
    assert(steps(s2, annotate(b, r1, c1)) == Ok::<Scan, crate::errors::IdmlError>(
        after_node(s, t, indent, ch),
    ));
}

/// Reading the first node of a document gives its indentation and name tokens.
proof fn lemma_first_node_steps(d: Dialect, t: Tree, indent: nat, ch: char, row: nat, column: nat)
    requires
        may_delimit(d, t.delimiter),
        t.level <= 1,
        name_ok(d, t.name),
        content_ok(d, t.delimiter, t.content),
    ensures
        steps(scan_start(d), annotate(node_text(t, indent, ch), row, column)) == Ok::<
            Scan,
            crate::errors::IdmlError,
        >(
            Scan {
                dialect: d,
                state: TokenizerState::NewLine,
                delimiter: t.delimiter,
                indent_char: NULL,
                indentation: seq![],
                name: seq![],
                content: t.content,
                tokens: seq![
                    TokenView::Indentation(0, NULL),
                    TokenView::NodeName(t.name, t.delimiter),
                ],
            },
        ),
{
    let delim = t.delimiter;
    let a = seq![delim];
    let b = t.name + t.content;
    assert(node_text(t, indent, ch) =~= a + b);
    lemma_annotate_concat(a, b, row, column);
    let (r1, c1) = annotate_end(a, row, column);
    lemma_single_char_annotate(delim, row, column);
    let s0 = scan_start(d);
    let m = AnnotatedChar::Character(delim, row as usize, (column + 1) as usize);
    lemma_steps_concat(s0, annotate(a, row, column), annotate(b, r1, c1));
    assert(seq![m].drop_first() =~= Seq::<AnnotatedChar>::empty());
    let s1 = step(s0, m)->Ok_0;
    lemma_steps_single(s0, m);
    assert(steps(s0, annotate(a, row, column)) == Ok::<Scan, crate::errors::IdmlError>(s1));
    lemma_name_content_steps(s1, t.name, t.content, r1, c1);
    assert(s1.tokens.push(TokenView::NodeName(t.name, delim)) =~= seq![
        TokenView::Indentation(0, NULL),
        TokenView::NodeName(t.name, t.delimiter),
    ]);
}

/// The tokens of nodes written one after another, each with `indent`
/// copies of `ch` per level below the first.
pub open spec fn nodes_tokens(items: Seq<Tree>, indent: nat, ch: char) -> Seq<TokenView>
    decreases items.len(),
{
    if items.len() == 0 {
        seq![]
    } else {
        seq![
            width_token(indent_width(items[0].level, indent), ch),
            TokenView::NodeName(items[0].name, items[0].delimiter),
            TokenView::NodeContent(items[0].content),
        ] + nodes_tokens(items.drop_first(), indent, ch)
    }
}

/// Nodes that the tokenizer reads back in dialect `d` with delimiter `delim`,
/// written with `indent` copies of `ch` per level.
pub open spec fn nodes_ok(d: Dialect, delim: char, items: Seq<Tree>, indent: nat) -> bool {
    forall|i: int|
        0 <= i < items.len() ==> {
            &&& (#[trigger] items[i]).delimiter == delim
            &&& name_ok(d, items[i].name)
            &&& content_ok(d, delim, items[i].content)
            &&& indent_width(items[i].level, indent) < usize::MAX
        }
}

proof fn lemma_node_text_start(t: Tree, indent: nat, ch: char)
    requires
        ch == WS || ch == TAB,
        is_allowed(t.delimiter),
    ensures
        node_text(t, indent, ch).len() > 0,
        node_text(t, indent, ch)[0] != '\n',
{
    let w = indent_width(t.level, indent);
    assert(node_text(t, indent, ch) =~= Seq::new(w, |i: int| ch) + (seq![t.delimiter] + t.name
        + t.content));
    if w == 0 {
        assert(node_text(t, indent, ch)[0] == t.delimiter);
    } else {
        assert(node_text(t, indent, ch)[0] == ch);
    }
}

/// Reading nodes that follow the content of another gives their tokens.
proof fn lemma_nodes_steps(s: Scan, items: Seq<Tree>, indent: nat, ch: char, row: nat, column: nat)
    requires
        s.state == TokenizerState::NewLine,
        s.indentation.len() == 0,
        s.name.len() == 0,
        is_allowed(s.delimiter),
        indents(s.dialect, ch),
        s.indent_char == NULL || s.indent_char == ch,
        content_ok(s.dialect, s.delimiter, s.content),
        nodes_ok(s.dialect, s.delimiter, items, indent),
    ensures
        steps(s, annotate(crate::laws::node_texts(items, indent, ch), row, column)) is Ok,
        ({
            let t = steps(s, annotate(crate::laws::node_texts(items, indent, ch), row, column))->Ok_0;
            &&& t.state == TokenizerState::NewLine
            &&& t.dialect == s.dialect
            &&& t.tokens.push(TokenView::NodeContent(t.content)) == s.tokens.push(
                TokenView::NodeContent(s.content),
            ) + nodes_tokens(items, indent, ch)
        }),
    decreases items.len(),
{
    let text = crate::laws::node_texts(items, indent, ch);
    if items.len() == 0 {
        assert(text =~= Seq::<char>::empty());
        assert(annotate(text, row, column) =~= Seq::<AnnotatedChar>::empty());
        assert(s.tokens.push(TokenView::NodeContent(s.content)) + nodes_tokens(items, indent, ch)
            =~= s.tokens.push(TokenView::NodeContent(s.content)));
    } else {
        let t0 = items[0];
        let rest = items.drop_first();
        let a = node_text(t0, indent, ch);
        let b = crate::laws::node_texts(rest, indent, ch);
        assert(text == a + b);
        if b.len() > 0 {
            assert(b == node_text(rest[0], indent, ch) + crate::laws::node_texts(
                rest.drop_first(),
                indent,
                ch,
            ));
            assert(rest[0] == items[1]);
            lemma_node_text_start(rest[0], indent, ch);
            assert(b[0] == node_text(rest[0], indent, ch)[0]);
        }
        lemma_annotate_concat(a, b, row, column);
        let (r1, c1) = annotate_end(a, row, column);
        lemma_steps_concat(s, annotate(a, row, column), annotate(b, r1, c1));
        assert(t0 == items[0]);
        lemma_node_steps(s, t0, indent, ch, row, column);
        let s1 = after_node(s, t0, indent, ch);
        assert forall|i: int| 0 <= i < rest.len() implies {
            &&& (#[trigger] rest[i]).delimiter == s1.delimiter
            &&& name_ok(s1.dialect, rest[i].name)
            &&& content_ok(s1.dialect, s1.delimiter, rest[i].content)
            &&& indent_width(rest[i].level, indent) < usize::MAX
        } by {
            assert(rest[i] == items[i + 1]);
        }
        lemma_nodes_steps(s1, rest, indent, ch, r1, c1);
        let t = steps(s1, annotate(b, r1, c1))->Ok_0;
        let w0 = width_token(indent_width(t0.level, indent), ch);
        let n0 = TokenView::NodeName(t0.name, t0.delimiter);
        let c0 = TokenView::NodeContent(t0.content);
        assert(s1.tokens.push(TokenView::NodeContent(s1.content)) =~= s.tokens.push(
            TokenView::NodeContent(s.content),
        ) + seq![w0, n0, c0]);
        assert(nodes_tokens(items, indent, ch) == seq![w0, n0, c0] + nodes_tokens(rest, indent, ch));
        assert(t.tokens.push(TokenView::NodeContent(t.content)) =~= s.tokens.push(
            TokenView::NodeContent(s.content),
        ) + nodes_tokens(items, indent, ch));
    }
}

/// The tokens of nodes written one after another, the first at the first
/// level, are the nodes' tokens.
pub proof fn lemma_document_tokens(d: Dialect, items: Seq<Tree>, indent: nat, ch: char)
    requires
        items.len() >= 1,
        may_delimit(d, items[0].delimiter),
        items[0].level <= 1,
        indents(d, ch),
        nodes_ok(d, items[0].delimiter, items, indent),
    ensures
        tokens_in(d, crate::laws::node_texts(items, indent, ch)) == Ok::<
            Seq<TokenView>,
            crate::errors::IdmlError,
        >(nodes_tokens(items, indent, ch)),
{
    let delim = items[0].delimiter;
    let t0 = items[0];
    let rest = items.drop_first();
    let text = crate::laws::node_texts(items, indent, ch);
    let a = node_text(t0, indent, ch);
    let b = crate::laws::node_texts(rest, indent, ch);
    assert(text == a + b);
    if b.len() > 0 {
        assert(b == node_text(rest[0], indent, ch) + crate::laws::node_texts(
            rest.drop_first(),
            indent,
            ch,
        ));
        assert(rest[0] == items[1]);
        lemma_node_text_start(rest[0], indent, ch);
        assert(b[0] == node_text(rest[0], indent, ch)[0]);
    }
    lemma_annotate_concat(a, b, 1, 0);
    let (r1, c1) = annotate_end(a, 1, 0);
    let s0 = scan_start(d);
    lemma_run_steps(s0, annotations(text));
    lemma_steps_concat(s0, annotate(a, 1, 0), annotate(b, r1, c1));
    lemma_first_node_steps(d, t0, indent, ch, 1, 0);
    let s1 = steps(s0, annotate(a, 1, 0))->Ok_0;
    assert forall|i: int| 0 <= i < rest.len() implies {
        &&& (#[trigger] rest[i]).delimiter == s1.delimiter
        &&& name_ok(s1.dialect, rest[i].name)
        &&& content_ok(s1.dialect, s1.delimiter, rest[i].content)
        &&& indent_width(rest[i].level, indent) < usize::MAX
    } by {
        assert(rest[i] == items[i + 1]);
    }
    lemma_nodes_steps(s1, rest, indent, ch, r1, c1);
    let t = steps(s1, annotate(b, r1, c1))->Ok_0;
    assert(width_token(indent_width(t0.level, indent), ch) == TokenView::Indentation(0, NULL));
    assert(s1.tokens.push(TokenView::NodeContent(s1.content)) + nodes_tokens(rest, indent, ch)
        =~= nodes_tokens(items, indent, ch));
}

} // verus!
