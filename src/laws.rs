//! Laws that relate tokenizing, parsing and serialising a document.

use vstd::prelude::*;
use vstd::arithmetic::div_mod::{
    lemma_div_by_self, lemma_div_multiples_vanish, lemma_fundamental_div_mod, lemma_mod_multiples_basic,
    lemma_mod_self_0,
};
use crate::node::{document_of, documents_of, is_root_tree, node_text, root_tree, Tree};
use crate::parser::{deeper_run, forest, items_from, leaf, lemma_deeper_run, level_of, parsed_in};
use crate::rescan::{
    content_ok, indent_width, lemma_accepted_tokens, lemma_document_tokens, name_ok, nodes_ok,
    nodes_tokens, token_ok, tokens_ok, width_token,
};
use crate::defs::NULL;
use crate::tokenizer::{
    indents, joined, kind_fits, lemma_tokens_in, token_text, tokens_in, well_shaped, widths_within,
    Dialect, TokenView,
};

verus! {

/// The width of the first indentation token among `ts` that is wider than
/// zero, or `0` when there is none.
pub open spec fn first_unit(ts: Seq<TokenView>) -> usize
    decreases ts.len(),
{
    if ts.len() == 0 {
        0
    } else if ts[0] is Indentation && ts[0]->Indentation_0 > 0 {
        ts[0]->Indentation_0
    } else {
        first_unit(ts.drop_first())
    }
}

/// Whether the tokens `ts` of a document show it indented by `indent` copies
/// of `ch` per level: its first indentation wider than zero is `indent` wide,
/// and every indentation wider than zero is made of `ch`.
pub open spec fn indented_with(ts: Seq<TokenView>, indent: usize, ch: char) -> bool {
    &&& first_unit(ts) == 0 || first_unit(ts) == indent
    &&& forall|i: int|
        0 <= i < ts.len() && #[trigger] ts[i] is Indentation && ts[i]->Indentation_0 > 0
            ==> ts[i]->Indentation_1 == ch
}

/// The texts of nodes without their descendants, one after another.
pub open spec fn node_texts(items: Seq<Tree>, indent: nat, ch: char) -> Seq<char>
    decreases items.len(),
{
    if items.len() == 0 {
        seq![]
    } else {
        node_text(items[0], indent, ch) + node_texts(items.drop_first(), indent, ch)
    }
}

proof fn lemma_node_texts_concat(a: Seq<Tree>, b: Seq<Tree>, indent: nat, ch: char)
    ensures
        node_texts(a + b, indent, ch) == node_texts(a, indent, ch) + node_texts(b, indent, ch),
    decreases a.len(),
{
    if a.len() == 0 {
        assert(a + b =~= b);
        assert(node_texts(a, indent, ch) + node_texts(b, indent, ch) =~= node_texts(b, indent, ch));
    } else {
        assert((a + b).drop_first() =~= a.drop_first() + b);
        lemma_node_texts_concat(a.drop_first(), b, indent, ch);
        assert((a + b)[0] == a[0]);
        assert(node_texts(a + b, indent, ch) =~= node_texts(a, indent, ch) + node_texts(
            b,
            indent,
            ch,
        ));
    }
}

proof fn lemma_documents_concat(a: Seq<Tree>, b: Seq<Tree>, indent: nat, ch: char)
    ensures
        documents_of(a + b, indent, ch) == documents_of(a, indent, ch) + documents_of(b, indent, ch),
    decreases b.len(),
{
    if b.len() == 0 {
        assert(a + b =~= a);
        assert(documents_of(a, indent, ch) + documents_of(b, indent, ch) =~= documents_of(
            a,
            indent,
            ch,
        ));
    } else {
        assert((a + b).drop_last() =~= a + b.drop_last());
        lemma_documents_concat(a, b.drop_last(), indent, ch);
        assert(documents_of(a + b, indent, ch) =~= documents_of(a, indent, ch) + documents_of(
            b,
            indent,
            ch,
        ));
    }
}

proof fn lemma_joined_concat(a: Seq<TokenView>, b: Seq<TokenView>)
    ensures
        joined(a + b) == joined(a) + joined(b),
    decreases b.len(),
{
    if b.len() == 0 {
        assert(a + b =~= a);
        assert(joined(a) + joined(b) =~= joined(a));
    } else {
        assert((a + b).drop_last() =~= a + b.drop_last());
        lemma_joined_concat(a, b.drop_last());
        assert(joined(a + b) =~= joined(a) + joined(b));
    }
}

/// The document of the trees of nodes is the texts of the nodes in document order.
proof fn lemma_preorder(items: Seq<Tree>, indent: nat, ch: char)
    requires
        forall|i: int| 0 <= i < items.len() ==> #[trigger] items[i].level >= 1,
    ensures
        documents_of(forest(items), indent, ch) == node_texts(items, indent, ch),
    decreases items.len(),
{
    if items.len() == 0 {
        assert(documents_of(forest(items), indent, ch) =~= seq![]);
    } else {
        let l = items[0].level;
        let k = deeper_run(items.drop_first(), l) as int;
        lemma_deeper_run(items.drop_first(), l);
        let inner = items.subrange(1, k + 1);
        let rest = items.subrange(k + 1, items.len() as int);
        assert forall|i: int| 0 <= i < inner.len() implies #[trigger] inner[i].level >= 1 by {
            assert(inner[i] == items[i + 1]);
        }
        assert forall|i: int| 0 <= i < rest.len() implies #[trigger] rest[i].level >= 1 by {
            assert(rest[i] == items[i + k + 1]);
        }
        lemma_preorder(inner, indent, ch);
        lemma_preorder(rest, indent, ch);
        let head = Tree { children: forest(inner), ..items[0] };
        assert(forest(items) == seq![head] + forest(rest));
        lemma_documents_concat(seq![head], forest(rest), indent, ch);
        assert(seq![head].drop_last() =~= Seq::<Tree>::empty());
        assert(seq![head].last() == head);
        assert(documents_of(Seq::<Tree>::empty(), indent, ch) =~= seq![]);
        assert(documents_of(seq![head], indent, ch) =~= document_of(head, indent, ch));
        assert(!is_root_tree(head));
        assert(node_text(head, indent, ch) == node_text(items[0], indent, ch));
        assert(items.drop_first() =~= inner + rest);
        lemma_node_texts_concat(inner, rest, indent, ch);
        assert(documents_of(forest(items), indent, ch) =~= node_texts(items, indent, ch));
    }
}

/// The texts of the nodes that tokens describe are the text of the tokens,
/// when the indentation matches; every node is at level one or deeper.
proof fn lemma_items_text(ts: Seq<TokenView>, m: usize, indent: usize, ch: char)
    requires
        well_shaped(ts),
        ts.len() % 3 == 0,
        items_from(ts, m) is Ok,
        widths_within(ts, (usize::MAX - 1) as nat),
        m == 0 || m == indent,
        m == 0 ==> indented_with(ts, indent, ch),
        forall|i: int|
            0 <= i < ts.len() && #[trigger] ts[i] is Indentation && ts[i]->Indentation_0 > 0
                ==> ts[i]->Indentation_1 == ch,
    ensures
        node_texts(items_from(ts, m)->Ok_0, indent as nat, ch) == joined(ts),
        forall|i: int|
            0 <= i < items_from(ts, m)->Ok_0.len() ==> #[trigger] items_from(ts, m)->Ok_0[i].level
                >= 1,
    decreases ts.len(),
{
    if ts.len() == 0 {
        assert(joined(ts) =~= seq![]);
        assert(node_texts(items_from(ts, m)->Ok_0, indent as nat, ch) =~= seq![]);
    } else {
        assert(kind_fits(ts[0], 0));
        assert(kind_fits(ts[1], 1));
        assert(kind_fits(ts[2], 2));
        let width = ts[0]->Indentation_0;
        let k = ts[0]->Indentation_1;
        let name = ts[1]->NodeName_0;
        let delimiter = ts[1]->NodeName_1;
        let content = ts[2]->NodeContent_0;
        let m2 = if m == 0 {
            width
        } else {
            m
        };
        let rest = ts.subrange(3, ts.len() as int);
        let level = level_of(width, m2);
        let item = leaf(level, delimiter, name, content);
        let rest_items = items_from(rest, m2)->Ok_0;
        assert(items_from(ts, m)->Ok_0 == seq![item] + rest_items);
        // The rest satisfies the requirements.
        assert forall|i: int| 0 <= i < rest.len() implies kind_fits(#[trigger] rest[i], i) by {
            assert(rest[i] == ts[i + 3]);
            assert(kind_fits(ts[i + 3], i + 3));
        }
        assert forall|i: int| #![auto]
            0 <= i < rest.len() && rest[i] is Indentation implies rest[i]->Indentation_0 <= (
            usize::MAX - 1) as nat by {
            assert(rest[i] == ts[i + 3]);
        }
        assert forall|i: int|
            0 <= i < rest.len() && #[trigger] rest[i] is Indentation && rest[i]->Indentation_0 > 0
                implies rest[i]->Indentation_1 == ch by {
            assert(rest[i] == ts[i + 3]);
        }
        if m == 0 {
            if width > 0 {
                assert(first_unit(ts) == width);
            } else {
                let d1 = ts.drop_first();
                let d2 = d1.drop_first();
                assert(d2.drop_first() =~= rest);
                assert(d1[0] == ts[1]);
                assert(d2[0] == ts[2]);
                assert(first_unit(ts) == first_unit(d1));
                assert(first_unit(d1) == first_unit(d2));
                assert(first_unit(d2) == first_unit(rest));
            }
        }
        lemma_items_text(rest, m2, indent, ch);
        // The first node stands for the first three tokens.
        let t3 = ts.subrange(0, 3);
        assert(ts =~= t3 + rest);
        lemma_joined_concat(t3, rest);
        let t2 = t3.drop_last();
        let t1 = t2.drop_last();
        assert(t1.drop_last() =~= Seq::<TokenView>::empty());
        assert(joined(t1.drop_last()) =~= seq![]);
        assert(t1.last() == ts[0]);
        assert(t2.last() == ts[1]);
        assert(t3.last() == ts[2]);
        assert(joined(t1) =~= token_text(ts[0]));
        assert(joined(t2) =~= token_text(ts[0]) + token_text(ts[1]));
        assert(joined(t3) =~= token_text(ts[0]) + token_text(ts[1]) + token_text(ts[2]));
        let w: nat = if level > 1 {
            ((level - 1) * indent) as nat
        } else {
            0
        };
        if width > 0 {
            assert(m2 == indent);
            assert(width % m2 == 0);
            lemma_fundamental_div_mod(width as int, m2 as int);
            assert((width / m2) * m2 == width) by (nonlinear_arith)
                requires
                    width == m2 * (width / m2) + width % m2,
                    width % m2 == 0,
            ;
            assert(width <= usize::MAX - 1);
            assert(width / m2 <= width) by (nonlinear_arith)
                requires
                    m2 > 0,
            ;
            assert(width / m2 >= 1) by (nonlinear_arith)
                requires
                    (width / m2) * m2 == width,
                    width > 0,
            ;
            assert(level == width / m2 + 1);
            assert(level > 1);
            assert((level - 1) * indent == (width / m2) * m2);
            assert(w == width);
            assert(k == ch);
        } else {
            assert(level == 1);
        }
        assert(Seq::new(w, |i: int| ch) =~= token_text(ts[0]));
        assert(node_text(item, indent as nat, ch) =~= joined(t3));
        let items = seq![item] + rest_items;
        assert(items.drop_first() =~= rest_items);
        assert(node_texts(items, indent as nat, ch) =~= joined(ts));
        assert forall|i: int| 0 <= i < items.len() implies #[trigger] items[i].level >= 1 by {
            if i > 0 {
                assert(items[i] == rest_items[i - 1]);
            }
        }
    }
}

/// Round trip: serialising the tree of a document written in dialect `d`,
/// with the indentation width and character that the document uses, gives
/// back the document.
pub proof fn lemma_round_trip(d: Dialect, text: Seq<char>, indent: usize, ch: char)
    requires
        text.len() < usize::MAX,
        parsed_in(d, text) is Ok,
        indented_with(tokens_in(d, text)->Ok_0, indent, ch),
    ensures
        document_of(parsed_in(d, text)->Ok_0, indent as nat, ch) == text,
{
    lemma_tokens_in(d, text);
    let ts = tokens_in(d, text)->Ok_0;
    assert forall|i: int| #![auto]
        0 <= i < ts.len() && ts[i] is Indentation implies ts[i]->Indentation_0 <= (usize::MAX
        - 1) as nat by {}
    lemma_items_text(ts, 0, indent, ch);
    let items = items_from(ts, 0)->Ok_0;
    lemma_preorder(items, indent as nat, ch);
    let root = root_tree(forest(items));
    assert(is_root_tree(root));
    assert(document_of(root, indent as nat, ch) =~= documents_of(forest(items), indent as nat, ch));
}

/// Whether the first node deeper than the first level, if any, is at the second level.
pub open spec fn first_deep_is_two(items: Seq<Tree>) -> bool
    decreases items.len(),
{
    if items.len() == 0 {
        true
    } else if items[0].level <= 1 {
        first_deep_is_two(items.drop_first())
    } else {
        items[0].level == 2
    }
}

/// What the nodes described by accepted tokens are like.
proof fn lemma_items_facts(d: Dialect, delim: char, ts: Seq<TokenView>, m: usize)
    requires
        well_shaped(ts),
        ts.len() % 3 == 0,
        tokens_ok(d, delim, ts),
        items_from(ts, m) is Ok,
        widths_within(ts, (usize::MAX - 1) as nat),
    ensures
        ({
            let items = items_from(ts, m)->Ok_0;
            &&& items.len() == ts.len() / 3
            &&& forall|i: int|
                0 <= i < items.len() ==> {
                    &&& (#[trigger] items[i]).delimiter == delim
                    &&& name_ok(d, items[i].name)
                    &&& content_ok(d, delim, items[i].content)
                    &&& items[i].level >= 1
                    &&& items[i].children == Seq::<Tree>::empty()
                }
            &&& m == 0 ==> first_deep_is_two(items)
            &&& (m == 0 && ts.len() > 0 && ts[0]->Indentation_0 == 0) ==> items[0].level == 1
        }),
    decreases ts.len(),
{
    if ts.len() > 0 {
        assert(kind_fits(ts[0], 0));
        assert(kind_fits(ts[1], 1));
        assert(kind_fits(ts[2], 2));
        assert(token_ok(d, delim, ts[1]));
        assert(token_ok(d, delim, ts[2]));
        let width = ts[0]->Indentation_0;
        let m2 = if m == 0 {
            width
        } else {
            m
        };
        let rest = ts.subrange(3, ts.len() as int);
        assert forall|i: int| 0 <= i < rest.len() implies kind_fits(#[trigger] rest[i], i) by {
            assert(rest[i] == ts[i + 3]);
            assert(kind_fits(ts[i + 3], i + 3));
        }
        assert forall|i: int| 0 <= i < rest.len() implies token_ok(d, delim, #[trigger] rest[i]) by {
            assert(rest[i] == ts[i + 3]);
        }
        assert forall|i: int| #![auto]
            0 <= i < rest.len() && rest[i] is Indentation implies rest[i]->Indentation_0 <= (
            usize::MAX - 1) as nat by {
            assert(rest[i] == ts[i + 3]);
        }
        lemma_items_facts(d, delim, rest, m2);
        let level = level_of(width, m2);
        assert(width <= usize::MAX - 1);
        if m2 > 0 {
            assert(width / m2 <= width) by (nonlinear_arith)
                requires
                    m2 > 0,
            ;
        }
        assert(level >= 1);
        if m == 0 && width > 0 {
            lemma_div_by_self(width as int);
            assert(level == 2);
        }
        let items = items_from(ts, m)->Ok_0;
        let rest_items = items_from(rest, m2)->Ok_0;
        assert(items == seq![leaf(level, ts[1]->NodeName_1, ts[1]->NodeName_0, ts[2]->NodeContent_0)]
            + rest_items);
        assert(items.drop_first() =~= rest_items);
        assert forall|i: int| 0 <= i < items.len() implies {
            &&& (#[trigger] items[i]).delimiter == delim
            &&& name_ok(d, items[i].name)
            &&& content_ok(d, delim, items[i].content)
            &&& items[i].level >= 1
            &&& items[i].children == Seq::<Tree>::empty()
        } by {
            if i > 0 {
                assert(items[i] == rest_items[i - 1]);
            }
        }
    }
}

/// Parsing the tokens of nodes written with `indent` copies of a character
/// per level gives back the nodes.
proof fn lemma_nodes_parse(items: Seq<Tree>, m: usize, indent: usize, ch: char)
    requires
        indent >= 1,
        forall|i: int|
            0 <= i < items.len() ==> {
                &&& (#[trigger] items[i]).level >= 1
                &&& items[i].children == Seq::<Tree>::empty()
                &&& indent_width(items[i].level, indent as nat) < usize::MAX
            },
        m == 0 ==> first_deep_is_two(items),
        m != 0 ==> m == indent,
    ensures
        items_from(nodes_tokens(items, indent as nat, ch), m) == Ok::<Seq<Tree>, crate::errors::IdmlError>(
            items,
        ),
    decreases items.len(),
{
    let ts = nodes_tokens(items, indent as nat, ch);
    if items.len() == 0 {
        assert(ts =~= Seq::<TokenView>::empty());
        assert(items =~= Seq::<Tree>::empty());
    } else {
        let t0 = items[0];
        let rest = items.drop_first();
        let l = t0.level;
        let w = indent_width(l, indent as nat);
        assert(ts[0] == width_token(w, ch));
        let width = w as usize;
        let m2 = if m == 0 {
            width
        } else {
            m
        };
        if m == 0 {
            if l > 1 {
                assert(l == 2);
                assert((l - 1) * (indent as nat) == indent as nat) by (nonlinear_arith)
                    requires
                        l == 2,
                ;
                assert(w == indent as nat);
                assert(width == indent);
                lemma_mod_self_0(indent as int);
                lemma_div_by_self(indent as int);
            }
        } else {
            lemma_mod_multiples_basic((l - 1) as int, indent as int);
            lemma_div_multiples_vanish((l - 1) as int, indent as int);
            assert((l - 1) as int * indent == indent * (l - 1) as int) by (nonlinear_arith);
            if l > 1 {
                assert(width as int == (l - 1) as int * indent);
            } else {
                assert(width == 0);
            }
        }
        assert(level_of(width, m2) == l);
        assert(!(m2 > 0 && width % m2 != 0));
        assert(ts.subrange(3, ts.len() as int) =~= nodes_tokens(rest, indent as nat, ch));
        assert(ts[1] == TokenView::NodeName(t0.name, t0.delimiter));
        assert(ts[2] == TokenView::NodeContent(t0.content));
        assert(ts[0] == TokenView::Indentation(width, if w == 0 { NULL } else { ch }));
        assert forall|i: int| 0 <= i < rest.len() implies {
            &&& (#[trigger] rest[i]).level >= 1
            &&& rest[i].children == Seq::<Tree>::empty()
            &&& indent_width(rest[i].level, indent as nat) < usize::MAX
        } by {
            assert(rest[i] == items[i + 1]);
        }
        lemma_nodes_parse(rest, m2, indent, ch);
        assert(leaf(l, t0.delimiter, t0.name, t0.content) == t0);
        assert(items =~= seq![t0] + rest);
        assert(items_from(ts, m) == Ok::<Seq<Tree>, crate::errors::IdmlError>(
            seq![leaf(level_of(width, m2), t0.delimiter, t0.name, t0.content)] + rest,
        ));
    }
}

proof fn lemma_node_texts_widths(items: Seq<Tree>, indent: nat, ch: char)
    ensures
        forall|i: int|
            0 <= i < items.len() ==> indent_width((#[trigger] items[i]).level, indent)
                <= node_texts(items, indent, ch).len(),
    decreases items.len(),
{
    if items.len() > 0 {
        lemma_node_texts_widths(items.drop_first(), indent, ch);
        assert forall|i: int| 0 <= i < items.len() implies indent_width(
            (#[trigger] items[i]).level,
            indent,
        ) <= node_texts(items, indent, ch).len() by {
            if i > 0 {
                assert(items[i] == items.drop_first()[i - 1]);
            }
        }
    }
}

/// Re-parsing: parsing again, in the same dialect, the serialisation of a
/// parsed document gives the same tree, whatever indentation width of one or
/// more, and whatever character the dialect indents with, it was made with.
pub proof fn lemma_reparse(d: Dialect, text: Seq<char>, indent: usize, ch: char)
    requires
        text.len() < usize::MAX,
        parsed_in(d, text) is Ok,
        indent >= 1,
        indents(d, ch),
        document_of(parsed_in(d, text)->Ok_0, indent as nat, ch).len() < usize::MAX,
    ensures
        parsed_in(d, document_of(parsed_in(d, text)->Ok_0, indent as nat, ch)) == parsed_in(d, text),
{
    lemma_tokens_in(d, text);
    lemma_accepted_tokens(d, text);
    let ts = tokens_in(d, text)->Ok_0;
    let delim = ts[1]->NodeName_1;
    assert forall|i: int| #![auto]
        0 <= i < ts.len() && ts[i] is Indentation implies ts[i]->Indentation_0 <= (usize::MAX
        - 1) as nat by {}
    lemma_items_facts(d, delim, ts, 0);
    let items = items_from(ts, 0)->Ok_0;
    lemma_preorder(items, indent as nat, ch);
    let root = root_tree(forest(items));
    assert(is_root_tree(root));
    let y = document_of(root, indent as nat, ch);
    assert(y =~= node_texts(items, indent as nat, ch));
    lemma_node_texts_widths(items, indent as nat, ch);
    assert(nodes_ok(d, delim, items, indent as nat));
    assert(items.len() >= 1);
    lemma_document_tokens(d, items, indent as nat, ch);
    lemma_nodes_parse(items, 0, indent, ch);
}

} // verus!
