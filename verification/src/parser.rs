use vstd::prelude::*;

use crate::diagnostic::{Position, Range};
use tree_sitter::Parser;

verus! {

/// A zero-based row and byte column, as a syntax tree reports node boundaries.
#[derive(Debug, Clone, Copy, PartialEq, Eq, Structural)]
pub struct Point {
    pub row: usize,
    pub column: usize,
}

impl Point {
    /// The point at `row` and `column`.
    pub fn new(row: usize, column: usize) -> (point: Self)
        ensures
            point == (Point { row, column }),
    {
        Point { row, column }
    }
}

/// One node of a syntax tree, as it appears in a pre-order walk of the tree:
/// its kind, whether the grammar names it, its depth below the root, and its span.
#[derive(Debug, Clone, PartialEq, Eq)]
pub struct SyntaxNode {
    pub kind: String,
    pub is_named: bool,
    pub depth: usize,
    pub start_byte: usize,
    pub end_byte: usize,
    pub start_position: Point,
    pub end_position: Point,
}

impl SyntaxNode {
    /// A node with the given kind, naming, depth and span.
    pub fn new(
        kind: String,
        is_named: bool,
        depth: usize,
        start_byte: usize,
        end_byte: usize,
        start_position: Point,
        end_position: Point,
    ) -> (node: Self)
        ensures
            node@ == (NodeModel {
                kind: kind@,
                is_named,
                depth,
                start_byte,
                end_byte,
                start_position,
                end_position,
            }),
    {
        SyntaxNode { kind, is_named, depth, start_byte, end_byte, start_position, end_position }
    }
}

/// The mathematical value of a [`SyntaxNode`].
pub struct NodeModel {
    pub kind: Seq<char>,
    pub is_named: bool,
    pub depth: usize,
    pub start_byte: usize,
    pub end_byte: usize,
    pub start_position: Point,
    pub end_position: Point,
}

impl View for SyntaxNode {
    type V = NodeModel;

    open spec fn view(&self) -> NodeModel {
        NodeModel {
            kind: self.kind@,
            is_named: self.is_named,
            depth: self.depth,
            start_byte: self.start_byte,
            end_byte: self.end_byte,
            start_position: self.start_position,
            end_position: self.end_position,
        }
    }
}

impl DeepView for SyntaxNode {
    type V = NodeModel;

    open spec fn deep_view(&self) -> NodeModel {
        self@
    }
}

/// A syntax tree as the list of its nodes in pre-order: the root comes first
/// and every node is followed by its descendants, each one level deeper than
/// its parent.
#[derive(Debug, Clone, PartialEq, Eq)]
pub struct SyntaxTree {
    pub nodes: Vec<SyntaxNode>,
}

impl View for SyntaxTree {
    type V = Seq<NodeModel>;

    open spec fn view(&self) -> Seq<NodeModel> {
        self.nodes.deep_view()
    }
}

// ---------------------------------------------------------------------------
// Tree structure
// ---------------------------------------------------------------------------

/// Node `j` lies in the subtree below node `i`: it comes after `i`, and every
/// node from just after `i` up to `j` is deeper than `i`.
pub open spec fn in_subtree(tree: Seq<NodeModel>, i: int, j: int) -> bool {
    &&& 0 <= i < j < tree.len()
    &&& forall|k: int| i < k <= j ==> #[trigger] tree[k].depth > tree[i].depth
}

/// The spans of the nodes nest as the tree does, as in every tree that a parser
/// builds: each node spans forward, a node's descendants lie within its span,
/// and a node that comes after another's subtree starts no earlier than that
/// node ends.
pub open spec fn spans_nested(tree: Seq<NodeModel>) -> bool {
    &&& forall|i: int| 0 <= i < tree.len() ==> #[trigger] tree[i].start_byte <= tree[i].end_byte
    &&& forall|i: int, j: int|
        #![trigger tree[i], tree[j]]
        0 <= i < j < tree.len() ==> if in_subtree(tree, i, j) {
            tree[i].start_byte <= tree[j].start_byte && tree[j].end_byte <= tree[i].end_byte
        } else {
            tree[i].end_byte <= tree[j].start_byte
        }
}

/// Node `j` is a named child of node `i`.
pub open spec fn is_named_child(tree: Seq<NodeModel>, i: int, j: int) -> bool {
    &&& in_subtree(tree, i, j)
    &&& tree[j].depth == tree[i].depth + 1
    &&& tree[j].is_named
}

/// The nearest node at or before `k` that is shallower than `depth`.
pub open spec fn last_shallower(tree: Seq<NodeModel>, depth: usize, k: int) -> Option<int>
    decreases k + 1,
{
    if k < 0 || k >= tree.len() {
        None
    } else if tree[k].depth < depth {
        Some(k)
    } else {
        last_shallower(tree, depth, k - 1)
    }
}

/// The parent of node `i`: the nearest node before it that is shallower.
pub open spec fn parent_of(tree: Seq<NodeModel>, i: int) -> Option<int> {
    if 0 <= i < tree.len() {
        last_shallower(tree, tree[i].depth, i - 1)
    } else {
        None
    }
}

/// The parent of node `index`, if it has one.
pub fn parent_index(tree: &SyntaxTree, index: usize) -> (res: Option<usize>)
    requires
        index < tree@.len(),
    ensures
        opt_index(res) == parent_of(tree@, index as int),
        res matches Some(p) ==> p < index,
{
    let depth = tree.nodes[index].depth;
    let mut k = index;
    while k > 0
        invariant
            k <= index < tree@.len(),
            depth == tree@[index as int].depth,
            parent_of(tree@, index as int) == last_shallower(tree@, depth, k - 1),
        decreases k,
    {
        if tree.nodes[k - 1].depth < depth {
            return Some(k - 1);
        }
        k = k - 1;
    }
    None
}

/// An index as an optional mathematical integer.
pub open spec fn opt_index(o: Option<usize>) -> Option<int> {
    match o {
        Some(v) => Some(v as int),
        None => None,
    }
}

// ---------------------------------------------------------------------------
// Ranges of nodes
// ---------------------------------------------------------------------------

/// The position of a point.
pub open spec fn point_position(point: Point) -> Position {
    Position { row: point.row, column: point.column }
}

/// The range that a node spans.
pub open spec fn node_range(node: NodeModel) -> Range {
    Range {
        start: point_position(node.start_position),
        end: point_position(node.end_position),
        start_byte: node.start_byte,
        end_byte: node.end_byte,
    }
}

fn position_from_point(point: Point) -> (position: Position)
    ensures
        position == point_position(point),
{
    Position { row: point.row, column: point.column }
}

/// The range that `node` spans.
pub fn range_from_node(node: &SyntaxNode) -> (range: Range)
    ensures
        range == node_range(node@),
{
    Range {
        start: position_from_point(node.start_position),
        end: position_from_point(node.end_position),
        start_byte: node.start_byte,
        end_byte: node.end_byte,
    }
}

/// `point`, a position inside a text that starts at `base`, as a position in
/// the enclosing text: on the first row columns add up, later rows keep their column.
pub open spec fn shifted_position(point: Point, base: Point) -> Position {
    if point.row == 0 {
        Position { row: base.row, column: (base.column + point.column) as usize }
    } else {
        Position { row: (base.row + point.row) as usize, column: point.column }
    }
}

/// `point` can be shifted by `base` within `usize`.
pub open spec fn shift_fits(point: Point, base: Point) -> bool {
    if point.row == 0 {
        base.column + point.column <= usize::MAX
    } else {
        base.row + point.row <= usize::MAX
    }
}

fn offset_position(point: Point, base: Point) -> (position: Position)
    requires
        shift_fits(point, base),
    ensures
        position == shifted_position(point, base),
{
    if point.row == 0 {
        Position { row: base.row, column: base.column + point.column }
    } else {
        Position { row: base.row + point.row, column: point.column }
    }
}

/// The range of `node`, a node of a tree parsed from a text that starts at byte
/// `base_byte` and position `base_position` of an enclosing text.
pub fn offset_range(node: &SyntaxNode, base_byte: usize, base_position: Point) -> (range: Range)
    requires
        shift_fits(node.start_position, base_position),
        shift_fits(node.end_position, base_position),
        base_byte + node.start_byte <= usize::MAX,
        base_byte + node.end_byte <= usize::MAX,
    ensures
        range == (Range {
            start: shifted_position(node.start_position, base_position),
            end: shifted_position(node.end_position, base_position),
            start_byte: (base_byte + node.start_byte) as usize,
            end_byte: (base_byte + node.end_byte) as usize,
        }),
{
    Range {
        start: offset_position(node.start_position, base_position),
        end: offset_position(node.end_position, base_position),
        start_byte: base_byte + node.start_byte,
        end_byte: base_byte + node.end_byte,
    }
}

// ---------------------------------------------------------------------------
// Parsing
// ---------------------------------------------------------------------------

#[verifier::external_type_specification]
#[verifier::external_body]
pub struct ExLanguageError(tree_sitter::LanguageError);

/// Why a syntax tree could not be produced.
#[derive(Debug)]
pub enum ParseSetupError {
    Smarty(tree_sitter::LanguageError),
    Html(tree_sitter::LanguageError),
    ParseReturnedNone(&'static str),
}

/// The nodes, in pre-order, of the tree that the tree-sitter HTML grammar
/// builds for `source`.
pub uninterp spec fn html_syntax(source: Seq<char>) -> Seq<NodeModel>;

/// Makes a `tree_sitter::Parser`, gives it the grammar `tree_sitter_html::LANGUAGE`
/// and parses `source` with it, then lists every node of the tree in pre-order
/// with its depth. The grammar always loads: `set_language` refuses only a
/// grammar whose ABI version lies outside 13..=15 or that has no lexer, and the
/// HTML grammar is ABI 14 with a lexer. The parse always gives a tree: `parse`
/// returns none only when no grammar is set (or under a progress callback or a
/// wasm grammar, neither of which is used here). What comes back is named
/// `html_syntax` of the text.
#[verifier::external_body]
fn parse_html_nodes(source: &str) -> (res: Result<Option<SyntaxTree>, tree_sitter::LanguageError>)
    ensures
        res is Ok,
        res->Ok_0 is Some,
        res matches Ok(Some(tree)) ==> tree@ == html_syntax(source@),
{
    let mut parser = Parser::new();
    parser.set_language(&tree_sitter_html::LANGUAGE.into())?;
    Ok(parser.parse(source, None).map(|tree| {
        let mut c = tree.walk();
        SyntaxTree { nodes: (0..tree.root_node().descendant_count()).map(|i| {
            c.goto_descendant(i);
            let n = c.node();
            let (s, e) = (n.start_position(), n.end_position());
            SyntaxNode::new(n.kind().into(), n.is_named(), c.depth() as usize, n.start_byte(),
                n.end_byte(), Point::new(s.row, s.column), Point::new(e.row, e.column))
        }).collect() }
    }))
}

/// The tree of a parse, or why there is none: the grammar did not load, or the
/// parser gave no tree.
pub fn tree_from_parse(outcome: Result<Option<SyntaxTree>, tree_sitter::LanguageError>) -> (res:
    Result<SyntaxTree, ParseSetupError>)
    ensures
        match outcome {
            Ok(Some(tree)) => res == Ok::<SyntaxTree, ParseSetupError>(tree),
            Ok(None) => res matches Err(ParseSetupError::ParseReturnedNone(language))
                && language@ == "HTML"@,
            Err(error) => res == Err::<SyntaxTree, ParseSetupError>(ParseSetupError::Html(error)),
        },
{
    match outcome {
        Ok(Some(tree)) => Ok(tree),
        Ok(None) => Err(ParseSetupError::ParseReturnedNone("HTML")),
        Err(error) => Err(ParseSetupError::Html(error)),
    }
}

/// Parses `source` with the HTML grammar.
pub fn parse_html(source: &str) -> (res: Result<SyntaxTree, ParseSetupError>)
    ensures
        res is Ok,
        res matches Ok(tree) ==> tree@ == html_syntax(source@),
{
    tree_from_parse(parse_html_nodes(source))
}

} // verus!
