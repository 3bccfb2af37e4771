//! Parser: folds the tokens of a document into a tree of nodes.

use vstd::prelude::*;
use crate::errors::IdmlError;
use crate::node::{root_tree, Node, Tree};
use crate::tokenizer::{
    default_dialect, tokenize_in, tokens_in, tokens_view, widths_within, Dialect, Token, TokenView,
};

verus! {

/// The level of a node indented by `width`, in a document whose indentation
/// unit is `multiplier` (`0` while no node is indented).
pub open spec fn level_of(width: usize, multiplier: usize) -> usize {
    if multiplier > 0 {
        (width / multiplier + 1) as usize
    } else {
        1
    }
}

/// A node without children.
pub open spec fn leaf(level: usize, delimiter: char, name: Seq<char>, content: Seq<char>) -> Tree {
    Tree { level, delimiter, name, content, children: seq![] }
}

/// The nodes that a token sequence describes, in document order and without
/// children, or the first error in it; `multiplier` is the indentation unit
/// seen before `ts`. Tokens of a last, incomplete node are ignored.
pub open spec fn items_from(ts: Seq<TokenView>, multiplier: usize) -> Result<Seq<Tree>, IdmlError>
    decreases ts.len(),
{
    if ts.len() == 0 {
        Ok(seq![])
    } else {
        match ts[0] {
            TokenView::Indentation(width, _) => {
                let m = if multiplier == 0 {
                    width
                } else {
                    multiplier
                };
                if ts.len() == 1 {
                    Ok(seq![])
                } else {
                    match ts[1] {
                        TokenView::NodeName(name, delimiter) => {
                            if ts.len() == 2 {
                                Ok(seq![])
                            } else {
                                match ts[2] {
                                    TokenView::NodeContent(content) => {
                                        if m > 0 && width % m != 0 {
                                            Err(IdmlError::MalformedIndentation(width, m))
                                        } else {
                                            match items_from(ts.subrange(3, ts.len() as int), m) {
                                                Ok(rest) => Ok(
                                                    seq![leaf(level_of(width, m), delimiter, name, content)]
                                                        + rest,
                                                ),
                                                Err(e) => Err(e),
                                            }
                                        }
                                    },
                                    _ => Err(IdmlError::ExpectedNodeContentToken),
                                }
                            }
                        },
                        _ => Err(IdmlError::ExpectedNodeNameToken),
                    }
                }
            },
            _ => Err(IdmlError::ExpectedIndentationToken),
        }
    }
}

/// The number of leading `items` that are deeper than `level`.
pub open spec fn deeper_run(items: Seq<Tree>, level: usize) -> nat
    decreases items.len(),
{
    if items.len() > 0 && items[0].level > level {
        1 + deeper_run(items.drop_first(), level)
    } else {
        0
    }
}

/// The trees that a sequence of nodes in document order forms: each node
/// takes as children the trees of the run of deeper nodes that follows it.
pub open spec fn forest(items: Seq<Tree>) -> Seq<Tree>
    decreases items.len(),
    via forest_decreases
{
    if items.len() == 0 {
        seq![]
    } else {
        let k = deeper_run(items.drop_first(), items[0].level) as int;
        seq![Tree { children: forest(items.subrange(1, k + 1)), ..items[0] }] + forest(
            items.subrange(k + 1, items.len() as int),
        )
    }
}

#[via_fn]
proof fn forest_decreases(items: Seq<Tree>) {
    if items.len() > 0 {
        lemma_deeper_run(items.drop_first(), items[0].level);
    }
}

/// The tree that a token sequence describes: a synthetic root whose children
/// are the trees of the nodes.
pub open spec fn tree_of_tokens(ts: Seq<TokenView>) -> Result<Tree, IdmlError> {
    match items_from(ts, 0) {
        Ok(items) => Ok(root_tree(forest(items))),
        Err(e) => Err(e),
    }
}

/// The tree of a text written in dialect `d`.
pub open spec fn parsed_in(d: Dialect, text: Seq<char>) -> Result<Tree, IdmlError> {
    match tokens_in(d, text) {
        Ok(ts) => tree_of_tokens(ts),
        Err(e) => Err(e),
    }
}

/// The tree of a text written in the default dialect.
pub open spec fn parsed(text: Seq<char>) -> Result<Tree, IdmlError> {
    parsed_in(default_dialect(), text)
}

/// The model of a parser result.
pub open spec fn tree_result(r: Result<Node, IdmlError>) -> Result<Tree, IdmlError> {
    match r {
        Ok(n) => Ok(n@),
        Err(e) => Err(e),
    }
}

/// The models of a sequence of nodes.
pub open spec fn trees(ns: Seq<Node>) -> Seq<Tree> {
    ns.map_values(|n: Node| n@)
}

/// The run of deeper items is a prefix of the items; each of its items is
/// deeper than `level`, and the item after it is not.
pub proof fn lemma_deeper_run(items: Seq<Tree>, level: usize)
    ensures
        deeper_run(items, level) <= items.len(),
        forall|i: int| 0 <= i < deeper_run(items, level) ==> #[trigger] items[i].level > level,
        deeper_run(items, level) < items.len() ==> items[deeper_run(items, level) as int].level
            <= level,
    decreases items.len(),
{
    if items.len() > 0 && items[0].level > level {
        lemma_deeper_run(items.drop_first(), level);
        assert forall|i: int| 0 <= i < deeper_run(items, level) implies #[trigger] items[i].level
            > level by {
            if i > 0 {
                assert(items[i] == items.drop_first()[i - 1]);
            }
        }
    }
}

/// The run of deeper items does not reach past a following item that is not deeper.
proof fn lemma_deeper_run_concat(a: Seq<Tree>, b: Seq<Tree>, level: usize)
    requires
        b.len() == 0 || b[0].level <= level,
    ensures
        deeper_run(a + b, level) == deeper_run(a, level),
    decreases a.len(),
{
    if a.len() == 0 {
        assert(a + b =~= b);
    } else {
        assert((a + b).drop_first() =~= a.drop_first() + b);
        lemma_deeper_run_concat(a.drop_first(), b, level);
    }
}

/// Every tree of a forest has the level of one of its items.
proof fn lemma_forest_levels(items: Seq<Tree>, level: usize)
    requires
        forall|i: int| 0 <= i < items.len() ==> #[trigger] items[i].level > level,
    ensures
        forall|i: int| 0 <= i < forest(items).len() ==> #[trigger] forest(items)[i].level > level,
    decreases items.len(),
{
    if items.len() > 0 {
        let k = deeper_run(items.drop_first(), items[0].level) as int;
        lemma_deeper_run(items.drop_first(), items[0].level);
        let rest = items.subrange(k + 1, items.len() as int);
        assert forall|i: int| 0 <= i < rest.len() implies #[trigger] rest[i].level > level by {
            assert(rest[i] == items[i + k + 1]);
        }
        lemma_forest_levels(rest, level);
        assert forall|i: int| 0 <= i < forest(items).len() implies #[trigger] forest(items)[i].level
            > level by {
            if i > 0 {
                assert(forest(items)[i] == forest(rest)[i - 1]);
            }
        }
    }
}

/// The forest of `a + b` is the forest of `a` followed by the forest of `b`
/// when `b` starts with an item that is not deeper than any item of `a`.
proof fn lemma_forest_concat(a: Seq<Tree>, b: Seq<Tree>)
    requires
        b.len() == 0 || forall|i: int| 0 <= i < a.len() ==> b[0].level <= #[trigger] a[i].level,
    ensures
        forest(a + b) == forest(a) + forest(b),
    decreases a.len(),
{
    if a.len() == 0 {
        assert(a + b =~= b);
        assert(forest(a) =~= seq![]);
        assert(forest(a) + forest(b) =~= forest(b));
    } else {
        let ab = a + b;
        let l = a[0].level;
        lemma_deeper_run(a.drop_first(), l);
        assert(ab.drop_first() =~= a.drop_first() + b);
        if b.len() > 0 {
            assert(b[0].level <= a[0].level);
        }
        lemma_deeper_run_concat(a.drop_first(), b, l);
        let k = deeper_run(a.drop_first(), l) as int;
        assert(ab.subrange(1, k + 1) =~= a.subrange(1, k + 1));
        let rest = a.subrange(k + 1, a.len() as int);
        assert(ab.subrange(k + 1, ab.len() as int) =~= rest + b);
        if b.len() > 0 {
            assert forall|i: int| 0 <= i < rest.len() implies b[0].level
                <= #[trigger] rest[i].level by {
                assert(rest[i] == a[i + k + 1]);
            }
        }
        lemma_forest_concat(rest, b);
        assert(ab[0] == a[0]);
        assert(forest(ab) =~= forest(a) + forest(b));
    }
}

/// The forest of items splits at the end of the run of items deeper than
/// `level`: the trees of that run are all deeper than `level`, and the first
/// tree after them is not.
pub proof fn lemma_forest_split(items: Seq<Tree>, level: usize)
    ensures
        ({
            let k = deeper_run(items, level);
            let deep = forest(items.subrange(0, k as int));
            let shallow = forest(items.subrange(k as int, items.len() as int));
            &&& forest(items) == deep + shallow
            &&& forall|i: int| 0 <= i < deep.len() ==> #[trigger] deep[i].level > level
            &&& shallow.len() > 0 ==> shallow[0].level <= level
        }),
{
    let k = deeper_run(items, level);
    lemma_deeper_run(items, level);
    let a = items.subrange(0, k as int);
    let b = items.subrange(k as int, items.len() as int);
    assert(items =~= a + b);
    assert forall|i: int| 0 <= i < a.len() implies #[trigger] a[i].level > level by {
        assert(a[i] == items[i]);
    }
    lemma_forest_concat(a, b);
    lemma_forest_levels(a, level);
    if b.len() > 0 {
        assert(forest(b)[0].level == b[0].level);
    }
}

/// Parses input text.
pub fn parse(input: &str) -> (r: Result<Node, IdmlError>)
    requires
        input@.len() < usize::MAX,
    ensures
        tree_result(r) == parsed(input@),
        input@.len() == 0 ==> r == Err::<Node, IdmlError>(IdmlError::EmptyInput),
{
    parse_in(input, Dialect::new())
}

/// Parses input text written in the given dialect.
pub fn parse_in(input: &str, dialect: Dialect) -> (r: Result<Node, IdmlError>)
    requires
        input@.len() < usize::MAX,
    ensures
        tree_result(r) == parsed_in(dialect, input@),
        input@.len() == 0 ==> r == Err::<Node, IdmlError>(IdmlError::EmptyInput),
{
    match tokenize_in(input, dialect) {
        Ok(tokens) => {
            let ghost ts = tokens_view(tokens@);
            assert(widths_within(ts, (usize::MAX - 1) as nat));
            Parser::new(tokens).parse()
        },
        Err(e) => Err(e),
    }
}

/// Parses input tokens.
pub fn parse_tokens(tokens: Vec<Token>) -> (r: Result<Node, IdmlError>)
    requires
        widths_within(tokens_view(tokens@), (usize::MAX - 1) as nat),
    ensures
        tree_result(r) == tree_of_tokens(tokens_view(tokens@)),
{
    Parser::new(tokens).parse()
}

/// Parser.
pub struct Parser {
    /// Tokens to parse.
    tokens: Vec<Token>,
}

impl Parser {
    /// The models of the tokens to parse.
    pub closed spec fn tokens(&self) -> Seq<TokenView> {
        tokens_view(self.tokens@)
    }

    /// Creates a new instance of the parser.
    pub fn new(tokens: Vec<Token>) -> (r: Self)
        ensures
            r.tokens() == tokens_view(tokens@),
    {
        Parser { tokens }
    }

    /// Parses the tokens.
    pub fn parse(self) -> (r: Result<Node, IdmlError>)
        requires
            widths_within(self.tokens(), (usize::MAX - 1) as nat),
        ensures
            tree_result(r) == tree_of_tokens(self.tokens()),
    {
        match collect_nodes(&self.tokens) {
            Ok(nodes) => Ok(fold(nodes)),
            Err(e) => Err(e),
        }
    }
}

/// `r` with `first` put before the items it holds.
pub open spec fn prepend(first: Seq<Tree>, r: Result<Seq<Tree>, IdmlError>) -> Result<
    Seq<Tree>,
    IdmlError,
> {
    match r {
        Ok(rest) => Ok(first + rest),
        Err(e) => Err(e),
    }
}

/// Creates the nodes that the tokens describe, in document order and without children.
#[verifier::loop_isolation(false)]
fn collect_nodes(tokens: &Vec<Token>) -> (r: Result<Vec<Node>, IdmlError>)
    requires
        widths_within(tokens_view(tokens@), (usize::MAX - 1) as nat),
    ensures
        match items_from(tokens_view(tokens@), 0) {
            Ok(items) => r is Ok && trees(r->Ok_0@) == items,
            Err(e) => r == Err::<Vec<Node>, IdmlError>(e),
        },
        r is Ok ==> forall|i: int|
            0 <= i < r->Ok_0@.len() ==> (#[trigger] r->Ok_0@[i]@).children.len() == 0,
{
    let ghost ts = tokens_view(tokens@);
    let n = tokens.len();
    let mut nodes: Vec<Node> = Vec::new();
    let mut multiplier: usize = 0;
    let mut i: usize = 0;
    assert(ts.subrange(0, n as int) =~= ts);
    assert(trees(nodes@) =~= seq![]);
    assert(prepend(seq![], items_from(ts, 0)) =~= items_from(ts, 0)) by {
        match items_from(ts, 0) {
            Ok(items) => assert(Seq::<Tree>::empty() + items =~= items),
            Err(_) => {},
        }
    };
    while i < n
        invariant
            i <= n,
            n == ts.len(),
            items_from(ts, 0) == prepend(
                trees(nodes@),
                items_from(ts.subrange(i as int, n as int), multiplier),
            ),
            forall|j: int| 0 <= j < nodes@.len() ==> (#[trigger] nodes@[j]@).children.len() == 0,
        decreases n - i,
    {
        let ghost sub = ts.subrange(i as int, n as int);
        assert(sub[0] == ts[i as int]);
        assert(ts[i as int] == tokens@[i as int]@);
        let width = match &tokens[i] {
            Token::Indentation(width, _) => *width,
            _ => {
                return Err(IdmlError::ExpectedIndentationToken);
            },
        };
        if multiplier == 0 {
            multiplier = width;
        }
        if i + 1 >= n {
            assert(trees(nodes@) + Seq::<Tree>::empty() =~= trees(nodes@));
            return Ok(nodes);
        }
        assert(sub[1] == ts[i + 1]);
        assert(ts[i + 1] == tokens@[i + 1]@);
        let (name, delimiter) = match &tokens[i + 1] {
            Token::NodeName(name, delimiter) => (name.clone(), *delimiter),
            _ => {
                return Err(IdmlError::ExpectedNodeNameToken);
            },
        };
        if i + 2 >= n {
            assert(trees(nodes@) + Seq::<Tree>::empty() =~= trees(nodes@));
            return Ok(nodes);
        }
        assert(sub[2] == ts[i + 2]);
        assert(ts[i + 2] == tokens@[i + 2]@);
        let content = match &tokens[i + 2] {
            Token::NodeContent(content) => content.clone(),
            _ => {
                return Err(IdmlError::ExpectedNodeContentToken);
            },
        };
        if multiplier > 0 && width % multiplier != 0 {
            return Err(IdmlError::MalformedIndentation(width, multiplier));
        }
        let level = if multiplier > 0 {
            width / multiplier + 1
        } else {
            1
        };
        let ghost before = trees(nodes@);
        let node = Node::new(level, delimiter, name, content);
        nodes.push(node);
        proof {
            assert(sub.subrange(3, sub.len() as int) =~= ts.subrange(i as int + 3, n as int));
            assert(trees(nodes@) =~= before.push(node@));
            match items_from(ts.subrange(i as int + 3, n as int), multiplier) {
                Ok(rest) => {
                    assert(before + (seq![node@] + rest) =~= trees(nodes@) + rest);
                },
                Err(_) => {},
            }
        }
        i = i + 3;
    }
    assert(ts.subrange(n as int, n as int) =~= seq![]);
    assert(trees(nodes@) + Seq::<Tree>::empty() =~= trees(nodes@));
    Ok(nodes)
}

/// Moves to `node`, as its children in document order, the trees at the top
/// of `stack` that are deeper than `node`; the stack holds, from its top, the
/// trees `deep` and then the trees `shallow`.
#[verifier::loop_isolation(false)]
fn adopt(node: &mut Node, stack: &mut Vec<Node>, deep: Ghost<Seq<Tree>>, shallow: Ghost<Seq<Tree>>)
    requires
        old(node)@.children.len() == 0,
        trees(old(stack)@).reverse() == deep@ + shallow@,
        forall|i: int| 0 <= i < deep@.len() ==> #[trigger] deep@[i].level > old(node)@.level,
        shallow@.len() > 0 ==> shallow@[0].level <= old(node)@.level,
    ensures
        final(node)@ == (Tree { children: deep@, ..old(node)@ }),
        trees(final(stack)@).reverse() == shallow@,
{
    let ghost f = deep@ + shallow@;
    let ghost mut c: int = 0;
    assert(f.subrange(0, 0) =~= seq![]);
    assert(old(node)@.children =~= f.subrange(0, 0));
    assert(node@ == (Tree { children: f.subrange(0, c), ..old(node)@ }));
    assert(f.subrange(0, f.len() as int) =~= f);
    while stack.len() > 0 && stack[stack.len() - 1].level() > node.level()
        invariant
            0 <= c <= deep@.len(),
            node@ == (Tree { children: f.subrange(0, c), ..old(node)@ }),
            trees(stack@).reverse() == f.subrange(c, f.len() as int),
        decreases stack.len(),
    {
        let ghost top = stack@[stack@.len() - 1];
        let ghost before = trees(stack@);
        assert(trees(stack@).reverse()[0] == top@);
        proof {
            if c == deep@.len() as int {
                assert(f[c] == shallow@[0]);
            }
        }
        let child = stack.pop().unwrap();
        node.add_child(child);
        proof {
            assert(trees(stack@) =~= before.drop_last());
            assert(before.drop_last().reverse() =~= before.reverse().drop_first());
            assert(f[c] == top@);
            assert(f.subrange(0, c + 1) =~= f.subrange(0, c).push(top@));
            c = c + 1;
            assert(trees(stack@).reverse() =~= f.subrange(c, f.len() as int));
        }
    }
    proof {
        if c < deep@.len() {
            assert(f[c] == deep@[c]);
            assert(trees(stack@).reverse()[0] == stack@[stack@.len() - 1]@);
        }
        assert(c == deep@.len());
        assert(f.subrange(0, c) =~= deep@);
        assert(f.subrange(c, f.len() as int) =~= shallow@);
    }
}

/// Folds nodes in document order into a tree rooted at a synthetic root:
/// the nodes are taken in reverse order, and each adopts, from a stack of
/// the trees after it, those deeper than itself.
#[verifier::loop_isolation(false)]
fn fold(nodes: Vec<Node>) -> (r: Node)
    requires
        forall|i: int| 0 <= i < nodes@.len() ==> (#[trigger] nodes@[i]@).children.len() == 0,
    ensures
        r@ == root_tree(forest(trees(nodes@))),
{
    let ghost items = trees(nodes@);
    let ghost len = items.len();
    assert forall|i: int| 0 <= i < len implies (#[trigger] items[i]).children.len() == 0 by {
        assert(items[i] == nodes@[i]@);
    }
    let mut nodes = nodes;
    let mut stack: Vec<Node> = Vec::new();
    assert(trees(stack@).reverse() =~= forest(items.subrange(len as int, len as int)));
    while nodes.len() > 0
        invariant
            nodes@.len() <= len,
            trees(nodes@) == items.subrange(0, nodes@.len() as int),
            trees(stack@).reverse() == forest(items.subrange(nodes@.len() as int, len as int)),
            forall|i: int| 0 <= i < len ==> (#[trigger] items[i]).children.len() == 0,
        decreases nodes.len(),
    {
        let j = nodes.len() - 1;
        let ghost sub = items.subrange(j as int, len as int);
        let ghost rest = items.subrange(j as int + 1, len as int);
        let ghost old_nodes = nodes@;
        let mut node = nodes.pop().unwrap();
        assert(trees(nodes@) =~= items.subrange(0, j as int));
        assert(trees(old_nodes)[j as int] == old_nodes[j as int]@);
        assert(items.subrange(0, j as int + 1)[j as int] == items[j as int]);
        assert(items[j as int].children =~= seq![]);
        assert(node@ == items[j as int]);
        assert(sub.drop_first() =~= rest);
        let ghost level = node@.level;
        let ghost f = forest(rest);
        let ghost k = deeper_run(rest, level);
        let ghost deep = forest(rest.subrange(0, k as int));
        let ghost shallow = forest(rest.subrange(k as int, rest.len() as int));
        proof {
            lemma_deeper_run(rest, level);
            lemma_forest_split(rest, level);
        }
        assert(node@ == (Tree { children: seq![], ..items[j as int] }));
        adopt(&mut node, &mut stack, Ghost(deep), Ghost(shallow));
        proof {
            assert(rest.subrange(0, k as int) =~= sub.subrange(1, k as int + 1));
            assert(rest.subrange(k as int, rest.len() as int) =~= sub.subrange(
                k as int + 1,
                sub.len() as int,
            ));
        }
        let ghost old_stack = trees(stack@);
        stack.push(node);
        assert(trees(stack@) =~= old_stack.push(node@));
        assert(trees(stack@).reverse() =~= forest(sub));
    }
    let ghost all = forest(items);
    assert(items.subrange(0, len as int) =~= items);
    let mut root = Node::root();
    let ghost mut c: int = 0;
    assert(all.subrange(0, 0) =~= seq![]);
    assert(all.subrange(0, all.len() as int) =~= all);
    while stack.len() > 0
        invariant
            0 <= c <= all.len(),
            root@ == root_tree(all.subrange(0, c)),
            trees(stack@).reverse() == all.subrange(c, all.len() as int),
        decreases stack.len(),
    {
        let ghost top = stack@[stack@.len() - 1];
        let ghost before = trees(stack@);
        assert(trees(stack@).reverse()[0] == top@);
        let child = stack.pop().unwrap();
        root.add_child(child);
        proof {
            assert(trees(stack@) =~= before.drop_last());
            assert(before.drop_last().reverse() =~= before.reverse().drop_first());
            assert(all[c] == top@);
            assert(all.subrange(0, c + 1) =~= all.subrange(0, c).push(top@));
            c = c + 1;
            assert(trees(stack@).reverse() =~= all.subrange(c, all.len() as int));
        }
    }
    assert(all.subrange(0, c) =~= all);
    root
}

} // verus!
