//! Syntax trees as plain values: what a parsed source holds, node by node in
//! the order in which the nodes are entered.

use vstd::prelude::*;

verus! {

/// The grammars that a source can be parsed with.
#[derive(Clone, Copy, Debug, PartialEq, Eq, Structural)]
pub enum Grammar {
    Rust,
    TypeScript,
    Tsx,
    JavaScript,
    Python,
    Go,
}

/// The child that a node marks as its name.
#[derive(Clone, Copy, Debug, PartialEq, Eq, Structural)]
pub struct NameNode {
    pub start: usize,
    pub end: usize,
    pub error: bool,
    pub missing: bool,
}

/// A node of a syntax tree with all that lies below it.
pub struct SyntaxTree {
    pub kind: Seq<char>,
    pub start: usize,
    pub end: usize,
    pub error: bool,
    pub missing: bool,
    pub named: bool,
    pub named_children: usize,
    pub name: Option<NameNode>,
    pub children: Seq<SyntaxTree>,
}

/// One node of a listed tree. `parent` is the place of the node above it.
pub struct SyntaxNode {
    pub kind: String,
    pub start: usize,
    pub end: usize,
    pub error: bool,
    pub missing: bool,
    pub named: bool,
    pub named_children: usize,
    pub name: Option<NameNode>,
    pub parent: Option<usize>,
    pub depth: usize,
}

/// What a listed node says.
pub struct NodeRecord {
    pub kind: Seq<char>,
    pub start: usize,
    pub end: usize,
    pub error: bool,
    pub missing: bool,
    pub named: bool,
    pub named_children: usize,
    pub name: Option<NameNode>,
    pub parent: Option<usize>,
    pub depth: usize,
}

impl View for SyntaxNode {
    type V = NodeRecord;

    open spec fn view(&self) -> NodeRecord {
        NodeRecord {
            kind: self.kind@,
            start: self.start,
            end: self.end,
            error: self.error,
            missing: self.missing,
            named: self.named,
            named_children: self.named_children,
            name: self.name,
            parent: self.parent,
            depth: self.depth,
        }
    }
}

pub open spec fn records(nodes: Seq<SyntaxNode>) -> Seq<NodeRecord> {
    Seq::new(nodes.len(), |i: int| nodes[i]@)
}

/// The plain values that one node holds apart from its children.
pub struct NodeFacts {
    pub kind: String,
    pub start: usize,
    pub end: usize,
    pub error: bool,
    pub missing: bool,
    pub named: bool,
    pub named_children: usize,
}

/// A node that has a parent is listed behind it, one level deeper.
pub open spec fn is_listing(nodes: Seq<NodeRecord>) -> bool {
    forall|i: int|
        0 <= i < nodes.len() ==> match (#[trigger] nodes[i]).parent {
            Some(parent) => parent < i && nodes[i].depth == nodes[parent as int].depth + 1,
            None => nodes[i].depth == 0,
        }
}

pub open spec fn record(tree: SyntaxTree, parent: Option<usize>, depth: usize) -> NodeRecord {
    NodeRecord {
        kind: tree.kind,
        start: tree.start,
        end: tree.end,
        error: tree.error,
        missing: tree.missing,
        named: tree.named,
        named_children: tree.named_children,
        name: tree.name,
        parent,
        depth,
    }
}

/// The nodes of a tree, each before its children, the first at place `base`.
pub open spec fn listing(
    tree: SyntaxTree,
    parent: Option<usize>,
    depth: usize,
    base: int,
) -> Seq<NodeRecord>
    decreases tree,
{
    seq![record(tree, parent, depth)] + forest(
        tree.children,
        Some(base as usize),
        (depth + 1) as usize,
        base + 1,
    )
}

/// The nodes of several trees one after the other.
pub open spec fn forest(
    trees: Seq<SyntaxTree>,
    parent: Option<usize>,
    depth: usize,
    base: int,
) -> Seq<NodeRecord>
    decreases trees,
{
    if trees.len() == 0 {
        Seq::empty()
    } else {
        let first = listing(trees[0], parent, depth, base);
        first + forest(trees.subrange(1, trees.len() as int), parent, depth, base + first.len())
    }
}

pub open spec fn size(tree: SyntaxTree) -> nat
    decreases tree,
{
    1 + forest_size(tree.children)
}

pub open spec fn forest_size(trees: Seq<SyntaxTree>) -> nat
    decreases trees,
{
    if trees.len() == 0 {
        0
    } else {
        size(trees[0]) + forest_size(trees.subrange(1, trees.len() as int))
    }
}

/// A tree of the crate `tree-sitter`.
#[verifier::external_type_specification]
#[verifier::external_body]
pub struct ExTree(tree_sitter::Tree);

/// A node of the crate `tree-sitter`.
#[verifier::external_type_specification]
#[verifier::external_body]
pub struct ExNode<'tree>(tree_sitter::Node<'tree>);

/// What a parsed tree holds.
pub uninterp spec fn tree_contents(tree: tree_sitter::Tree) -> SyntaxTree;

/// What a node and the nodes below it hold.
pub uninterp spec fn node_contents(node: tree_sitter::Node<'_>) -> SyntaxTree;

/// The tree that `tree_sitter::Parser::parse` makes of a text.
pub uninterp spec fn parsed(source: Seq<char>, grammar: Grammar) -> Option<SyntaxTree>;

/// Parses with `tree_sitter::Parser`: a fresh parser, the grammar's language,
/// and no earlier tree. Nothing comes back where the parser does not take the
/// language. What the tree holds is the parser's to say and has only a name here.
#[verifier::external_body]
fn parse(source: &str, grammar: Grammar) -> (tree: Option<tree_sitter::Tree>)
    ensures
        match parsed(source@, grammar) {
            None => tree is None,
            Some(contents) => tree matches Some(found) && tree_contents(found) == contents,
        },
{
    let language = match grammar {
        Grammar::Rust => tree_sitter_rust::LANGUAGE.into(),
        Grammar::TypeScript => tree_sitter_typescript::LANGUAGE_TYPESCRIPT.into(),
        Grammar::Tsx => tree_sitter_typescript::LANGUAGE_TSX.into(),
        Grammar::JavaScript => tree_sitter_javascript::LANGUAGE.into(),
        Grammar::Python => tree_sitter_python::LANGUAGE.into(),
        Grammar::Go => tree_sitter_go::LANGUAGE.into(),
    };
    let mut parser = tree_sitter::Parser::new();
    parser.set_language(&language).ok()?;
    parser.parse(source, None)
}

/// `tree_sitter::Tree::root_node` is the node that holds the whole tree.
#[verifier::external_body]
fn root_of(tree: &tree_sitter::Tree) -> (node: tree_sitter::Node<'_>)
    ensures
        node_contents(node) == tree_contents(*tree),
{
    tree.root_node()
}

/// Reads a `tree_sitter::Node` by its getters `kind`, `start_byte`, `end_byte`,
/// `is_error`, `is_missing`, `is_named` and `named_child_count`.
#[verifier::external_body]
fn facts_of(node: &tree_sitter::Node<'_>) -> (facts: NodeFacts)
    ensures
        facts.kind@ == node_contents(*node).kind,
        facts.start == node_contents(*node).start,
        facts.end == node_contents(*node).end,
        facts.error == node_contents(*node).error,
        facts.missing == node_contents(*node).missing,
        facts.named == node_contents(*node).named,
        facts.named_children == node_contents(*node).named_children,
{
    NodeFacts {
        kind: node.kind().to_owned(),
        start: node.start_byte(),
        end: node.end_byte(),
        error: node.is_error(),
        missing: node.is_missing(),
        named: node.is_named(),
        named_children: node.named_child_count(),
    }
}

/// `tree_sitter::Node::child_by_field_name` with the field `name`.
#[verifier::external_body]
fn name_of(node: &tree_sitter::Node<'_>) -> (name: Option<NameNode>)
    ensures
        name == node_contents(*node).name,
{
    node.child_by_field_name("name").map(
        |child| NameNode {
            start: child.start_byte(),
            end: child.end_byte(),
            error: child.is_error(),
            missing: child.is_missing(),
        },
    )
}

/// `tree_sitter::Node::child_count` is the number of the node's children.
#[verifier::external_body]
fn child_count(node: &tree_sitter::Node<'_>) -> (count: u32)
    ensures
        count == node_contents(*node).children.len(),
{
    node.child_count()
}

/// `tree_sitter::Node::child` is the child at an index below the child count.
#[verifier::external_body]
fn child_at<'tree>(node: &tree_sitter::Node<'tree>, index: u32) -> (child: Option<
    tree_sitter::Node<'tree>,
>)
    requires
        index < node_contents(*node).children.len(),
    ensures
        child is Some,
        node_contents(child->0) == node_contents(*node).children[index as int],
{
    node.child(index)
}

/// A node that is still to be listed.
pub struct Pending<'tree> {
    pub node: tree_sitter::Node<'tree>,
    pub parent: Option<usize>,
    pub depth: usize,
}

/// The nodes that come out of a stack of pending nodes, the top first.
spec fn pending_listing(stack: Seq<Pending<'_>>, base: int) -> Seq<NodeRecord>
    decreases stack.len(),
{
    if stack.len() == 0 {
        Seq::empty()
    } else {
        let top = stack.last();
        let first = listing(node_contents(top.node), top.parent, top.depth, base);
        first + pending_listing(stack.drop_last(), base + first.len())
    }
}

spec fn pending_size(stack: Seq<Pending<'_>>) -> nat
    decreases stack.len(),
{
    if stack.len() == 0 {
        0
    } else {
        pending_size(stack.drop_last()) + size(node_contents(stack.last().node))
    }
}

/// Children pushed from the last to the first come out as their forest.
proof fn lemma_pushed_children(
    below: Seq<Pending<'_>>,
    stack: Seq<Pending<'_>>,
    children: Seq<SyntaxTree>,
    parent: Option<usize>,
    depth: usize,
    base: int,
)
    requires
        stack.len() == below.len() + children.len(),
        forall|i: int| 0 <= i < below.len() ==> stack[i] == below[i],
        forall|i: int|
            0 <= i < children.len() ==> {
                let entry = #[trigger] stack[stack.len() - 1 - i];
                entry.parent == parent && entry.depth == depth && node_contents(entry.node)
                    == children[i]
            },
    ensures
        pending_listing(stack, base) == forest(children, parent, depth, base) + pending_listing(
            below,
            base + forest(children, parent, depth, base).len(),
        ),
        pending_size(stack) == forest_size(children) + pending_size(below),
    decreases children.len(),
{
    if children.len() == 0 {
        assert(stack =~= below);
        assert(forest(children, parent, depth, base) + pending_listing(below, base)
            =~= pending_listing(below, base));
    } else {
        let rest = children.subrange(1, children.len() as int);
        let shorter = stack.drop_last();
        assert(stack[stack.len() - 1 - 0] == stack.last());
        let first = listing(children[0], parent, depth, base);
        assert forall|i: int| 0 <= i < rest.len() implies {
            let entry = #[trigger] shorter[shorter.len() - 1 - i];
            entry.parent == parent && entry.depth == depth && node_contents(entry.node) == rest[i]
        } by {
            assert(shorter[shorter.len() - 1 - i] == stack[stack.len() - 1 - (i + 1)]);
            assert(rest[i] == children[i + 1]);
        }
        lemma_pushed_children(below, shorter, rest, parent, depth, base + first.len());
        let others = forest(rest, parent, depth, base + first.len());
        assert(first + (others + pending_listing(below, base + first.len() + others.len()))
            =~= (first + others) + pending_listing(below, base + first.len() + others.len()));
    }
}

proof fn lemma_listing_size(tree: SyntaxTree, parent: Option<usize>, depth: usize, base: int)
    ensures
        listing(tree, parent, depth, base).len() == size(tree),
    decreases tree,
{
    lemma_forest_size(tree.children, Some(base as usize), (depth + 1) as usize, base + 1);
}

proof fn lemma_forest_size(
    trees: Seq<SyntaxTree>,
    parent: Option<usize>,
    depth: usize,
    base: int,
)
    ensures
        forest(trees, parent, depth, base).len() == forest_size(trees),
    decreases trees,
{
    if trees.len() > 0 {
        lemma_listing_size(trees[0], parent, depth, base);
        lemma_forest_size(
            trees.subrange(1, trees.len() as int),
            parent,
            depth,
            base + size(trees[0]),
        );
    }
}

/// Lists the nodes of a tree from the root down.
fn list_nodes(tree: &tree_sitter::Tree) -> (nodes: Vec<SyntaxNode>)
    ensures
        records(nodes@) == listing(tree_contents(*tree), None, 0, 0),
        is_listing(records(nodes@)),
{
    let mut nodes: Vec<SyntaxNode> = Vec::new();
    let mut stack: Vec<Pending<'_>> = Vec::new();
    stack.push(Pending { node: root_of(tree), parent: None, depth: 0 });
    let ghost whole = listing(tree_contents(*tree), None, 0, 0);
    proof {
        assert(stack@.drop_last() =~= Seq::empty());
        reveal_with_fuel(pending_listing, 2);
        assert(pending_listing(stack@, 0) =~= whole);
        assert(records(nodes@) + pending_listing(stack@, 0) =~= whole);
    }
    loop
        invariant
            records(nodes@) + pending_listing(stack@, nodes@.len() as int) == whole,
            is_listing(records(nodes@)),
            forall|i: int|
                0 <= i < stack@.len() ==> match (#[trigger] stack@[i]).parent {
                    Some(parent) => parent < nodes@.len() && stack@[i].depth
                        == nodes@[parent as int].depth + 1,
                    None => stack@[i].depth == 0,
                },
            forall|i: int| 0 <= i < stack@.len() ==> (#[trigger] stack@[i]).depth <= nodes@.len(),
            forall|i: int| 0 <= i < nodes@.len() ==> (#[trigger] nodes@[i]).depth <= i,
        ensures
            stack@.len() == 0,
        decreases pending_size(stack@),
    {
        let ghost before = nodes@;
        let ghost above = stack@;
        match stack.pop() {
            None => {
                break;
            },
            Some(pending) => {
                let ghost below = stack@;
                assert(below =~= above.drop_last());
                assert(pending == above.last());
                let ghost contents = node_contents(pending.node);
                let index: usize = nodes.len();
                let facts = facts_of(&pending.node);
                nodes.push(
                    SyntaxNode {
                        kind: facts.kind,
                        start: facts.start,
                        end: facts.end,
                        error: facts.error,
                        missing: facts.missing,
                        named: facts.named,
                        named_children: facts.named_children,
                        name: name_of(&pending.node),
                        parent: pending.parent,
                        depth: pending.depth,
                    },
                );
                assert(nodes.len() == index + 1);
                let depth: usize = pending.depth + 1;
                let mut left: u32 = child_count(&pending.node);
                let ghost children = contents.children;
                assert(is_listing(records(nodes@))) by {
                    assert forall|i: int| 0 <= i < records(nodes@).len() implies match (
                    #[trigger] records(nodes@)[i]).parent {
                        Some(parent) => parent < i && records(nodes@)[i].depth == records(
                            nodes@,
                        )[parent as int].depth + 1,
                        None => records(nodes@)[i].depth == 0,
                    } by {
                        if i < before.len() {
                            assert(records(nodes@)[i] == records(before)[i]);
                        }
                    }
                }
                assert forall|i: int| 0 <= i < stack@.len() implies match (
                #[trigger] stack@[i]).parent {
                    Some(parent) => parent < nodes@.len() && stack@[i].depth
                        == nodes@[parent as int].depth + 1,
                    None => stack@[i].depth == 0,
                } by {
                    assert(stack@[i] == above[i]);
                }
                while left > 0
                    invariant
                        children == node_contents(pending.node).children,
                        left <= children.len(),
                        stack@.len() == below.len() + children.len() - left,
                        index + 1 == nodes@.len(),
                        nodes@[index as int].depth + 1 == depth,
                        depth <= nodes@.len(),
                        forall|i: int| 0 <= i < below.len() ==> stack@[i] == below[i],
                        forall|i: int|
                            0 <= i < children.len() - left ==> {
                                let entry = #[trigger] stack@[below.len() + i];
                                entry.parent == Some(index) && entry.depth == depth
                                    && node_contents(entry.node) == children[children.len() - 1
                                    - i]
                            },
                        forall|i: int|
                            0 <= i < stack@.len() ==> match (#[trigger] stack@[i]).parent {
                                Some(parent) => parent < nodes@.len() && stack@[i].depth
                                    == nodes@[parent as int].depth + 1,
                                None => stack@[i].depth == 0,
                            },
                        forall|i: int|
                            0 <= i < stack@.len() ==> (#[trigger] stack@[i]).depth
                                <= nodes@.len(),
                    decreases left,
                {
                    left = left - 1;
                    if let Some(child) = child_at(&pending.node, left) {
                        stack.push(Pending { node: child, parent: Some(index), depth });
                    }
                }
                proof {
                    assert forall|i: int| 0 <= i < children.len() implies {
                        let entry = #[trigger] stack@[stack@.len() - 1 - i];
                        entry.parent == Some(index) && entry.depth == depth && node_contents(
                            entry.node,
                        ) == children[i]
                    } by {
                        assert(stack@[stack@.len() - 1 - i] == stack@[below.len() + (children.len()
                            - 1 - i)]);
                    }
                    lemma_pushed_children(
                        below,
                        stack@,
                        children,
                        Some(index),
                        depth,
                        index + 1,
                    );
                    let here = seq![record(contents, pending.parent, pending.depth)];
                    let under = forest(children, Some(index), depth, index + 1);
                    assert(records(nodes@) =~= records(before) + here);
                    assert(listing(contents, pending.parent, pending.depth, index as int) == here
                        + under);
                    let later = pending_listing(below, index + 1 + under.len());
                    assert(pending_listing(above, index as int) == (here + under) + later);
                    assert(records(before) + ((here + under) + later) =~= records(nodes@) + (under
                        + later));
                    assert(pending_size(above) == pending_size(below) + size(contents));
                }
            },
        }
    }
    assert(records(nodes@) + Seq::<NodeRecord>::empty() =~= records(nodes@));
    nodes
}

/// Parses a source and lists the nodes of its tree.
pub fn syntax_nodes(source: &str, grammar: Grammar) -> (nodes: Option<Vec<SyntaxNode>>)
    ensures
        match parsed(source@, grammar) {
            None => nodes is None,
            Some(tree) => nodes matches Some(found) && records(found@) == listing(tree, None, 0, 0)
                && is_listing(records(found@)),
        },
{
    match parse(source, grammar) {
        None => None,
        Some(tree) => Some(list_nodes(&tree)),
    }
}

} // verus!
