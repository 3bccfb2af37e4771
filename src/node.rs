//! Tree node.

use vstd::prelude::*;
use crate::defs::NULL;
use crate::text::{chars_of, is_white_space, push_all};

verus! {

broadcast use vstd::std_specs::vec::group_vec_axioms;

/// Tree node.
#[derive(Debug)]
pub struct Node {
    /// Indentation level of the node: `0` for the root, `1` for top-level nodes.
    level: usize,
    /// Name delimiter, as defined in the parsed document.
    delimiter: char,
    /// Name of the node, as defined in the parsed document, without the delimiter.
    name: String,
    /// Content of the node, as defined in the parsed document.
    content: String,
    /// Child nodes, in document order.
    children: Vec<Node>,
}

/// Mathematical model of a [Node] and its descendants.
pub struct Tree {
    pub level: usize,
    pub delimiter: char,
    pub name: Seq<char>,
    pub content: Seq<char>,
    pub children: Seq<Tree>,
}

/// The model of a node.
pub closed spec fn tree_of(n: Node) -> Tree
    decreases n,
{
    Tree {
        level: n.level,
        delimiter: n.delimiter,
        name: n.name@,
        content: n.content@,
        children: Seq::new(
            n.children@.len(),
            |i: int|
                {
                    if 0 <= i < n.children@.len() {
                        tree_of(n.children@[i])
                    } else {
                        arbitrary()
                    }
                },
        ),
    }
}

impl View for Node {
    type V = Tree;

    open spec fn view(&self) -> Tree {
        tree_of(*self)
    }
}

impl Node {
    /// Returns a copy of this node and its descendants.
    pub fn deep_copy(&self) -> (r: Node)
        ensures
            r@ == self@,
        decreases self,
    {
        proof {
            lemma_children_view(self);
        }
        let n = self.children.len();
        let mut children: Vec<Node> = Vec::new();
        let mut i: usize = 0;
        while i < n
            invariant
                0 <= i <= n,
                n == self.children@.len(),
                children@.len() == i,
                forall|j: int| 0 <= j < i ==> #[trigger] children@[j]@ == self.children@[j]@,
            decreases n - i,
        {
            let child = self.children[i].deep_copy();
            children.push(child);
            i = i + 1;
        }
        let r = Node {
            level: self.level,
            delimiter: self.delimiter,
            name: self.name.clone(),
            content: self.content.clone(),
            children,
        };
        proof {
            lemma_children_view(&r);
        }
        assert(r@.children =~= self@.children);
        r
    }
}

impl Clone for Node {
    /// Returns a copy of this node and its descendants.
    fn clone(&self) -> (r: Node)
        ensures
            r@ == self@,
    {
        self.deep_copy()
    }
}

/// The models of a sequence of node references.
pub open spec fn refs_view(v: Seq<&Node>) -> Seq<Tree> {
    v.map_values(|n: &Node| n@)
}

/// The model of the synthetic root node of a document.
pub open spec fn root_tree(children: Seq<Tree>) -> Tree {
    Tree { level: 0, delimiter: NULL, name: "root"@, content: seq![], children }
}

/// Whether a node is the synthetic root of a document.
pub open spec fn is_root_tree(t: Tree) -> bool {
    t.level == 0 && t.delimiter == NULL && t.name == "root"@ && t.content.len() == 0
}

/// The line that starts a node in a document, with the node's content: the
/// indentation, the delimiter, the name and the content.
pub open spec fn node_text(t: Tree, indent: nat, ch: char) -> Seq<char> {
    let width: nat = if t.level > 1 {
        ((t.level - 1) * indent) as nat
    } else {
        0
    };
    Seq::new(width, |i: int| ch) + seq![t.delimiter] + t.name + t.content
}

/// The document that a node and its descendants stand for, in depth-first
/// preorder; the root itself stands for no text.
pub open spec fn document_of(t: Tree, indent: nat, ch: char) -> Seq<char>
    decreases t,
{
    (if is_root_tree(t) {
        seq![]
    } else {
        node_text(t, indent, ch)
    }) + documents_of(t.children, indent, ch)
}

/// The documents of a sequence of sibling nodes, one after another.
pub open spec fn documents_of(ts: Seq<Tree>, indent: nat, ch: char) -> Seq<char>
    decreases ts,
{
    if ts.len() == 0 {
        seq![]
    } else {
        documents_of(ts.drop_last(), indent, ch) + document_of(ts.last(), indent, ch)
    }
}

/// How a tag is made of a node name.
#[derive(Debug, Clone, Copy, PartialEq, Eq)]
pub enum TagCase {
    /// Separators followed by a character are removed and that character is
    /// put in upper case; every other character is put in lower case.
    Camel,
    /// The tag is the name as written.
    Verbatim,
}

/// Separators in a name, removed from its tag.
pub open spec fn is_separator(c: char) -> bool {
    c == '-' || c == '_'
}

/// The upper-case mapping of a character.
pub uninterp spec fn upper_of(c: char) -> Seq<char>;

/// The lower-case mapping of a character.
pub uninterp spec fn lower_of(c: char) -> Seq<char>;

/// The tag of a name: each separator followed by a character is removed and
/// that character is mapped to upper case; every other character is mapped
/// to lower case.
pub open spec fn tag_of(name: Seq<char>) -> Seq<char>
    decreases name.len(),
{
    if name.len() == 0 {
        seq![]
    } else if is_separator(name[0]) && name.len() > 1 {
        upper_of(name[1]) + tag_of(name.subrange(2, name.len() as int))
    } else {
        lower_of(name[0]) + tag_of(name.drop_first())
    }
}

/// `s` without its leading whitespace.
pub open spec fn trim_start(s: Seq<char>) -> Seq<char>
    decreases s.len(),
{
    if s.len() > 0 && is_white_space(s[0]) {
        trim_start(s.drop_first())
    } else {
        s
    }
}

/// `s` without its trailing whitespace.
pub open spec fn trim_end(s: Seq<char>) -> Seq<char>
    decreases s.len(),
{
    if s.len() > 0 && is_white_space(s.last()) {
        trim_end(s.drop_last())
    } else {
        s
    }
}

/// `s` without its leading and trailing whitespace.
pub open spec fn trimmed(s: Seq<char>) -> Seq<char> {
    trim_end(trim_start(s))
}

/// Relies on `char::to_uppercase`: the upper-case mapping of a character.
#[verifier::external_body]
fn upper_case(c: char) -> (r: String)
    ensures
        r@ == upper_of(c),
{
    c.to_uppercase().collect()
}

/// Relies on `char::to_lowercase`: the lower-case mapping of a character.
#[verifier::external_body]
fn lower_case(c: char) -> (r: String)
    ensures
        r@ == lower_of(c),
{
    c.to_lowercase().collect()
}

proof fn lemma_children_view(n: &Node)
    ensures
        n@.children.len() == n.children@.len(),
        forall|i: int| 0 <= i < n.children@.len() ==> #[trigger] n@.children[i] == n.children@[i]@,
{
}

proof fn lemma_filter_push(s: Seq<Tree>, x: Tree, p: spec_fn(Tree) -> bool)
    ensures
        s.push(x).filter(p) == (if p(x) {
            s.filter(p).push(x)
        } else {
            s.filter(p)
        }),
{
    reveal(Seq::filter);
    assert(s.push(x).drop_last() =~= s);
}

impl Node {
    /// Creates a root node.
    pub(crate) fn root() -> (r: Node)
        ensures
            r@ == root_tree(seq![]),
    {
        let r = Node {
            level: 0,
            delimiter: NULL,
            name: String::from_str("root"),
            content: String::new(),
            children: Vec::new(),
        };
        assert(r@.children =~= seq![]);
        assert(r@ =~= root_tree(seq![]));
        r
    }

    /// Returns `true` when the node is a root.
    pub(crate) fn is_root(&self) -> (r: bool)
        ensures
            r == is_root_tree(self@),
    {
        let root_name = String::from_str("root");
        self.level == 0 && self.delimiter == NULL && self.name == root_name && self.content.as_str().is_empty()
    }

    /// Creates a new node without children.
    pub(crate) fn new(level: usize, delimiter: char, name: String, content: String) -> (r: Node)
        ensures
            r@ == (Tree { level, delimiter, name: name@, content: content@, children: seq![] }),
    {
        let r = Node { level, delimiter, name, content, children: Vec::new() };
        assert(r@.children =~= seq![]);
        r
    }

    /// Adds a child node at the end of the children list.
    pub(crate) fn add_child(&mut self, node: Node)
        ensures
            final(self)@ == (Tree { children: old(self)@.children.push(node@), ..old(self)@ }),
    {
        self.children.push(node);
        assert(self@.children =~= old(self)@.children.push(node@));
    }

    /// Returns the indentation level of the node.
    pub fn level(&self) -> (r: usize)
        ensures
            r == self@.level,
    {
        self.level
    }

    /// Returns the delimiter of the node.
    pub fn delimiter(&self) -> (r: char)
        ensures
            r == self@.delimiter,
    {
        self.delimiter
    }

    /// Returns the node name.
    pub fn name(&self) -> (r: &str)
        ensures
            r@ == self@.name,
    {
        self.name.as_str()
    }

    /// Returns the node content.
    pub fn content(&self) -> (r: &str)
        ensures
            r@ == self@.content,
    {
        self.content.as_str()
    }

    /// Returns the node text: the content without leading and trailing whitespace.
    #[verifier::loop_isolation(false)]
    pub fn text(&self) -> (r: String)
        ensures
            r@ == trimmed(self@.content),
    {
        let chars = chars_of(self.content.as_str());
        let n = chars.len();
        let mut start: usize = 0;
        assert(chars@.subrange(0, n as int) =~= chars@);
        while start < n && is_white(chars[start])
            invariant
                0 <= start <= n,
                n == chars@.len(),
                trim_start(chars@) == trim_start(chars@.subrange(start as int, n as int)),
            decreases n - start,
        {
            assert(chars@.subrange(start as int, n as int).drop_first() =~= chars@.subrange(
                start as int + 1,
                n as int,
            ));
            start = start + 1;
        }
        assert(trim_start(chars@) == chars@.subrange(start as int, n as int)) by {
            assert(chars@.subrange(0, n as int) =~= chars@);
        };
        let mut end: usize = n;
        while end > start && is_white(chars[end - 1])
            invariant
                start <= end <= n,
                n == chars@.len(),
                trim_end(chars@.subrange(start as int, n as int)) == trim_end(
                    chars@.subrange(start as int, end as int),
                ),
            decreases end,
        {
            assert(chars@.subrange(start as int, end as int).drop_last() =~= chars@.subrange(
                start as int,
                end as int - 1,
            ));
            end = end - 1;
        }
        let mut r = String::new();
        let mut i: usize = start;
        while i < end
            invariant
                start <= i <= end,
                end <= n,
                n == chars@.len(),
                r@ == chars@.subrange(start as int, i as int),
            decreases end - i,
        {
            r.push(chars[i]);
            i = i + 1;
            assert(r@ =~= chars@.subrange(start as int, i as int));
        }
        r
    }

    /// Returns the tag of the node, an identifier made of its name: each `-x`
    /// or `_x` becomes `x` in upper case, every other character is in lower case.
    pub fn tag(&self) -> (r: String)
        ensures
            r@ == tag_of(self@.name),
    {
        self.camel_tag()
    }

    /// Returns the tag of the node made as `case` says.
    pub fn tag_with(&self, case: TagCase) -> (r: String)
        ensures
            r@ == match case {
                TagCase::Camel => tag_of(self@.name),
                TagCase::Verbatim => self@.name,
            },
    {
        match case {
            TagCase::Camel => self.camel_tag(),
            TagCase::Verbatim => self.name.clone(),
        }
    }

    #[verifier::loop_isolation(false)]
    fn camel_tag(&self) -> (r: String)
        ensures
            r@ == tag_of(self@.name),
    {
        let chars = chars_of(self.name.as_str());
        let n = chars.len();
        let mut r = String::new();
        let mut i: usize = 0;
        assert(chars@.subrange(0, n as int) =~= chars@);
        assert(r@ + tag_of(chars@) =~= tag_of(chars@));
        while i < n
            invariant
                0 <= i <= n,
                n == chars@.len(),
                r@ + tag_of(chars@.subrange(i as int, n as int)) == tag_of(chars@),
            decreases n - i,
        {
            let ghost rest = chars@.subrange(i as int, n as int);
            if (chars[i] == '-' || chars[i] == '_') && i + 1 < n {
                let upper = upper_case(chars[i + 1]);
                push_all(&mut r, upper.as_str());
                assert(rest.subrange(2, rest.len() as int) =~= chars@.subrange(i as int + 2, n as int));
                i = i + 2;
            } else {
                let lower = lower_case(chars[i]);
                push_all(&mut r, lower.as_str());
                assert(rest.drop_first() =~= chars@.subrange(i as int + 1, n as int));
                i = i + 1;
            }
            assert(r@ + tag_of(chars@.subrange(i as int, n as int)) =~= tag_of(chars@));
        }
        assert(tag_of(chars@.subrange(n as int, n as int)) =~= seq![]);
        assert(chars@.subrange(0, n as int) =~= chars@);
        r
    }

    /// Returns the document that this node and its descendants stand for:
    /// each node but the root is written as `(level - 1) * indent` copies of
    /// `ch`, its delimiter, its name and its content, in depth-first preorder.
    pub fn document(&self, indent: usize, ch: char) -> (r: String)
        ensures
            r@ == document_of(self@, indent as nat, ch),
    {
        let mut buffer = String::new();
        self.write_document(&mut buffer, indent, ch);
        assert(buffer@ =~= document_of(self@, indent as nat, ch));
        buffer
    }

    /// Appends the document of this node and its descendants to `buffer`.
    fn write_document(&self, buffer: &mut String, indent: usize, ch: char)
        ensures
            final(buffer)@ == old(buffer)@ + document_of(self@, indent as nat, ch),
        decreases self,
    {
        proof {
            lemma_children_view(self);
        }
        let ghost start = buffer@;
        if !self.is_root() {
            let mut l: usize = 1;
            while l < self.level
                invariant
                    1 <= l,
                    l <= self.level || self.level == 0,
                    self.level <= 1 ==> l == 1,
                    buffer@ == start + Seq::new(((l - 1) * indent) as nat, |i: int| ch),
                decreases self.level - l,
            {
                let ghost before = buffer@;
                push_repeat(buffer, ch, indent);
                proof {
                    assert((l as int - 1) * indent + indent == l * indent) by (nonlinear_arith);
                    assert(buffer@ =~= start + Seq::new((l * indent) as nat, |i: int| ch));
                }
                l = l + 1;
            }
            proof {
                let w: nat = if self@.level > 1 {
                    ((self@.level - 1) * indent) as nat
                } else {
                    0
                };
                if self@.level <= 1 {
                    assert(l == 1);
                } else {
                    assert(l == self.level);
                    assert(w == ((l - 1) * indent) as nat);
                }
                assert(buffer@ =~= start + Seq::new(w, |i: int| ch));
            }
            buffer.push(self.delimiter);
            push_all(buffer, self.name.as_str());
            push_all(buffer, self.content.as_str());
            assert(buffer@ =~= start + node_text(self@, indent as nat, ch));
        }
        let ghost mid = buffer@;
        assert(mid == start + (if is_root_tree(self@) {
            seq![]
        } else {
            node_text(self@, indent as nat, ch)
        }));
        let n = self.children.len();
        let mut i: usize = 0;
        assert(documents_of(self@.children.subrange(0, 0), indent as nat, ch) =~= seq![]);
        while i < n
            invariant
                0 <= i <= n,
                n == self.children@.len(),
                n == self@.children.len(),
                forall|j: int| 0 <= j < n ==> #[trigger] self@.children[j] == self.children@[j]@,
                buffer@ == mid + documents_of(
                    self@.children.subrange(0, i as int),
                    indent as nat,
                    ch,
                ),
            decreases n - i,
        {
            let child = &self.children[i];
            child.write_document(buffer, indent, ch);
            proof {
                let prefix = self@.children.subrange(0, i as int + 1);
                assert(prefix.drop_last() =~= self@.children.subrange(0, i as int));
                assert(prefix.last() == child@);
            }
            i = i + 1;
        }
        assert(self@.children.subrange(0, n as int) =~= self@.children);
    }

    /// Returns the first child node having the specified name.
    #[verifier::loop_isolation(false)]
    pub fn first_with_name(&self, name: &str) -> (r: Option<&Node>)
        ensures
            match r {
                None => forall|i: int|
                    0 <= i < self@.children.len() ==> #[trigger] self@.children[i].name != name@,
                Some(n) => exists|i: int|
                    0 <= i < self@.children.len() && self@.children[i].name == name@ && n@
                        == self@.children[i] && forall|j: int|
                        0 <= j < i ==> #[trigger] self@.children[j].name != name@,
            },
    {
        proof {
            lemma_children_view(self);
        }
        let target = String::from_str(name);
        let n = self.children.len();
        let mut i: usize = 0;
        while i < n
            invariant
                0 <= i <= n,
                n == self.children@.len(),
                target@ == name@,
                forall|j: int| 0 <= j < i ==> #[trigger] self@.children[j].name != name@,
            decreases n - i,
        {
            if self.children[i].name == target {
                assert(self@.children[i as int] == self.children@[i as int]@);
                assert(self@.children[i as int].name == name@);
                return Some(&self.children[i]);
            }
            i = i + 1;
        }
        None
    }

    /// Returns the last child node having the specified name.
    #[verifier::loop_isolation(false)]
    pub fn last_with_name(&self, name: &str) -> (r: Option<&Node>)
        ensures
            match r {
                None => forall|i: int|
                    0 <= i < self@.children.len() ==> #[trigger] self@.children[i].name != name@,
                Some(n) => exists|i: int|
                    0 <= i < self@.children.len() && self@.children[i].name == name@ && n@
                        == self@.children[i] && forall|j: int|
                        i < j < self@.children.len() ==> #[trigger] self@.children[j].name
                            != name@,
            },
    {
        proof {
            lemma_children_view(self);
        }
        let target = String::from_str(name);
        let mut i: usize = self.children.len();
        while i > 0
            invariant
                0 <= i <= self.children@.len(),
                target@ == name@,
                forall|j: int|
                    i <= j < self.children@.len() ==> #[trigger] self@.children[j].name != name@,
            decreases i,
        {
            if self.children[i - 1].name == target {
                assert(self@.children[i - 1] == self.children@[i - 1]@);
                assert(self@.children[i - 1].name == name@);
                return Some(&self.children[i - 1]);
            }
            i = i - 1;
        }
        None
    }

    /// Returns all child nodes, in document order.
    pub fn children(&self) -> (r: &[Node])
        ensures
            r@.len() == self@.children.len(),
            forall|i: int| 0 <= i < r@.len() ==> #[trigger] r@[i]@ == self@.children[i],
    {
        proof {
            lemma_children_view(self);
        }
        self.children.as_slice()
    }

    /// Returns the number of child nodes.
    pub fn child_count(&self) -> (r: usize)
        ensures
            r == self@.children.len(),
    {
        proof {
            lemma_children_view(self);
        }
        self.children.len()
    }

    /// Returns the child nodes whose name is, or is not (when `keep` is
    /// `false`), one of `names`.
    #[verifier::loop_isolation(false)]
    fn select(&self, names: &Vec<String>, keep: bool) -> (r: Vec<&Node>)
        ensures
            refs_view(r@) == self@.children.filter(
                |t: Tree| names@.map_values(|s: String| s@).contains(t.name) == keep,
            ),
    {
        proof {
            lemma_children_view(self);
        }
        let ghost wanted = names@.map_values(|s: String| s@);
        let ghost p = |t: Tree| wanted.contains(t.name) == keep;
        let mut r: Vec<&Node> = Vec::new();
        let n = self.children.len();
        let mut i: usize = 0;
        assert(self@.children.subrange(0, 0).filter(p) =~= seq![]) by {
            reveal(Seq::filter);
        };
        while i < n
            invariant
                0 <= i <= n,
                n == self.children@.len(),
                n == self@.children.len(),
                wanted == names@.map_values(|s: String| s@),
                refs_view(r@) == self@.children.subrange(0, i as int).filter(p),
            decreases n - i,
        {
            let child = &self.children[i];
            let listed = contains_name(names, &child.name);
            let ghost prefix = self@.children.subrange(0, i as int);
            assert(self@.children.subrange(0, i as int + 1) =~= prefix.push(child@));
            proof {
                lemma_filter_push(prefix, child@, p);
            }
            if listed == keep {
                r.push(child);
                assert(refs_view(r@) =~= prefix.filter(p).push(child@));
            }
            i = i + 1;
        }
        assert(self@.children.subrange(0, n as int) =~= self@.children);
        r
    }

    /// Returns the child nodes that have the specified name.
    pub fn with_name(&self, name: &str) -> (r: Vec<&Node>)
        ensures
            refs_view(r@) == self@.children.filter(|t: Tree| t.name == name@),
    {
        let names = vec![String::from_str(name)];
        let r = self.select(&names, true);
        proof {
            let wanted = names@.map_values(|s: String| s@);
            assert(wanted =~= seq![name@]);
            assert((|t: Tree| wanted.contains(t.name) == true) =~= (|t: Tree| t.name == name@)) by {
                assert forall|t: Tree| wanted.contains(t.name) == (t.name == name@) by {
                    if t.name == name@ {
                        assert(wanted[0] == t.name);
                    }
                }
            }
        }
        r
    }

    /// Returns the child nodes that have any of the specified names.
    pub fn with_names(&self, names: &[&str]) -> (r: Vec<&Node>)
        ensures
            refs_view(r@) == self@.children.filter(
                |t: Tree| names@.map_values(|s: &str| s@).contains(t.name),
            ),
    {
        let owned = owned_names(names);
        let r = self.select(&owned, true);
        proof {
            let a = owned@.map_values(|s: String| s@);
            let b = names@.map_values(|s: &str| s@);
            assert(a =~= b);
            assert((|t: Tree| a.contains(t.name) == true) =~= (|t: Tree| b.contains(t.name)));
        }
        r
    }

    /// Returns the child nodes, excluding those with the specified name.
    pub fn excluding_name(&self, name: &str) -> (r: Vec<&Node>)
        ensures
            refs_view(r@) == self@.children.filter(|t: Tree| t.name != name@),
    {
        let names = vec![String::from_str(name)];
        let r = self.select(&names, false);
        proof {
            let wanted = names@.map_values(|s: String| s@);
            assert(wanted =~= seq![name@]);
            assert((|t: Tree| wanted.contains(t.name) == false) =~= (|t: Tree| t.name != name@)) by {
                assert forall|t: Tree| wanted.contains(t.name) == (t.name == name@) by {
                    if t.name == name@ {
                        assert(wanted[0] == t.name);
                    }
                }
            }
        }
        r
    }

    /// Returns the child nodes, excluding those with any of the specified names.
    pub fn excluding_names(&self, names: &[&str]) -> (r: Vec<&Node>)
        ensures
            refs_view(r@) == self@.children.filter(
                |t: Tree| !names@.map_values(|s: &str| s@).contains(t.name),
            ),
    {
        let owned = owned_names(names);
        let r = self.select(&owned, false);
        proof {
            let a = owned@.map_values(|s: String| s@);
            let b = names@.map_values(|s: &str| s@);
            assert(a =~= b);
            assert((|t: Tree| a.contains(t.name) == false) =~= (|t: Tree| !b.contains(t.name)));
        }
        r
    }
}

/// Appends `n` copies of `ch` to `s`.
fn push_repeat(s: &mut String, ch: char, n: usize)
    ensures
        final(s)@ == old(s)@ + Seq::new(n as nat, |i: int| ch),
{
    let mut k: usize = 0;
    while k < n
        invariant
            0 <= k <= n,
            s@ == old(s)@ + Seq::new(k as nat, |i: int| ch),
        decreases n - k,
    {
        s.push(ch);
        k = k + 1;
        assert(s@ =~= old(s)@ + Seq::new(k as nat, |i: int| ch));
    }
}

/// Returns `true` when `c` is whitespace.
fn is_white(c: char) -> (r: bool)
    ensures
        r == is_white_space(c),
{
    let u = c as u32;
    (0x9 <= u && u <= 0xD) || u == 0x20 || u == 0x85 || u == 0xA0 || u == 0x1680 || (0x2000 <= u
        && u <= 0x200A) || u == 0x2028 || u == 0x2029 || u == 0x202F || u == 0x205F || u == 0x3000
}

/// Returns `true` when `name` is one of `names`.
fn contains_name(names: &Vec<String>, name: &String) -> (r: bool)
    ensures
        r == names@.map_values(|s: String| s@).contains(name@),
{
    let ghost views = names@.map_values(|s: String| s@);
    let mut i: usize = 0;
    while i < names.len()
        invariant
            0 <= i <= names@.len(),
            views == names@.map_values(|s: String| s@),
            forall|j: int| 0 <= j < i ==> views[j] != name@,
        decreases names.len() - i,
    {
        if names[i] == *name {
            assert(views[i as int] == name@);
            return true;
        }
        i = i + 1;
    }
    false
}

/// Returns owned copies of `names`.
#[verifier::loop_isolation(false)]
fn owned_names(names: &[&str]) -> (r: Vec<String>)
    ensures
        r@.map_values(|s: String| s@) == names@.map_values(|s: &str| s@),
{
    let mut r: Vec<String> = Vec::new();
    let mut i: usize = 0;
    while i < names.len()
        invariant
            0 <= i <= names@.len(),
            r@.len() == i,
            forall|j: int| 0 <= j < i ==> #[trigger] r@[j]@ == names@[j]@,
        decreases names.len() - i,
    {
        r.push(String::from_str(names[i]));
        i = i + 1;
    }
    assert(r@.map_values(|s: String| s@) =~= names@.map_values(|s: &str| s@));
    r
}

} // verus!
