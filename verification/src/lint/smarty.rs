use vstd::prelude::*;

use crate::parser::{is_named_child, parent_of, NodeModel, SyntaxTree};
use crate::text::{str_eq, string_from_utf8};
use vstd::string::StringSliceAdditionalSpecFns;
use vstd::utf8::{
    decode_utf8, is_char_boundary, is_char_boundary_iff_not_is_continuation_byte,
    is_char_boundary_start_end_of_seq, is_continuation_byte, partial_valid_utf8,
    partial_valid_utf8_extend_ascii_block, valid_utf8, valid_utf8_concat, valid_utf8_split,
};

verus! {

/// Kinds of Smarty control-flow nodes: blocks whose bodies are branches.
pub open spec fn control_flow_kind(kind: Seq<char>) -> bool {
    ||| kind == "if_block"@
    ||| kind == "elseif_block"@
    ||| kind == "else_block"@
    ||| kind == "foreach_block"@
    ||| kind == "foreachelse_block"@
    ||| kind == "for_block"@
    ||| kind == "forelse_block"@
    ||| kind == "section_block"@
    ||| kind == "sectionelse_block"@
    ||| kind == "while_block"@
    ||| kind == "block"@
}

/// Kinds of Smarty nodes that are statements of their own: tags, inline output
/// and blocks.
pub open spec fn smarty_construct_kind(kind: Seq<char>) -> bool {
    ||| kind == "tag"@
    ||| kind == "inline"@
    ||| kind == "block"@
    ||| kind == "if_block"@
    ||| kind == "elseif_block"@
    ||| kind == "else_block"@
    ||| kind == "foreach_block"@
    ||| kind == "foreachelse_block"@
    ||| kind == "for_block"@
    ||| kind == "forelse_block"@
    ||| kind == "section_block"@
    ||| kind == "sectionelse_block"@
    ||| kind == "while_block"@
    ||| kind == "literal_block"@
}

/// Every control-flow node is a Smarty statement.
pub proof fn lemma_control_flow_is_construct(kind: Seq<char>)
    ensures
        control_flow_kind(kind) ==> smarty_construct_kind(kind),
{
}

/// Whether `kind` names a Smarty control-flow node.
pub fn is_control_flow_kind(kind: &str) -> (res: bool)
    ensures
        res == control_flow_kind(kind@),
{
    str_eq(kind, "if_block") || str_eq(kind, "elseif_block") || str_eq(kind, "else_block")
        || str_eq(kind, "foreach_block") || str_eq(kind, "foreachelse_block") || str_eq(
        kind,
        "for_block",
    ) || str_eq(kind, "forelse_block") || str_eq(kind, "section_block") || str_eq(
        kind,
        "sectionelse_block",
    ) || str_eq(kind, "while_block") || str_eq(kind, "block")
}

fn is_smarty_construct_kind(kind: &str) -> (res: bool)
    ensures
        res == smarty_construct_kind(kind@),
{
    str_eq(kind, "tag") || str_eq(kind, "inline") || str_eq(kind, "block") || str_eq(
        kind,
        "if_block",
    ) || str_eq(kind, "elseif_block") || str_eq(kind, "else_block") || str_eq(
        kind,
        "foreach_block",
    ) || str_eq(kind, "foreachelse_block") || str_eq(kind, "for_block") || str_eq(
        kind,
        "forelse_block",
    ) || str_eq(kind, "section_block") || str_eq(kind, "sectionelse_block") || str_eq(
        kind,
        "while_block",
    ) || str_eq(kind, "literal_block")
}

/// Whether node `node` of `tree` is a Smarty control-flow node.
pub fn is_control_flow(tree: &SyntaxTree, node: usize) -> (res: bool)
    requires
        node < tree@.len(),
    ensures
        res == control_flow_kind(tree@[node as int].kind),
{
    is_control_flow_kind(tree.nodes[node].kind.as_str())
}

/// The parent of node `i` is a Smarty control-flow node.
pub open spec fn has_control_flow_parent(tree: Seq<NodeModel>, i: int) -> bool {
    match parent_of(tree, i) {
        Some(p) => control_flow_kind(tree[p].kind),
        None => false,
    }
}

/// Whether the parent of node `node` of `tree` is a Smarty control-flow node.
pub fn is_control_flow_parent(tree: &SyntaxTree, node: usize) -> (res: bool)
    requires
        node < tree@.len(),
    ensures
        res == has_control_flow_parent(tree@, node as int),
{
    match crate::parser::parent_index(tree, node) {
        Some(p) => is_control_flow(tree, p),
        None => false,
    }
}

/// Whether node `node` of `tree` is a Smarty statement.
pub fn is_smarty_construct(tree: &SyntaxTree, node: usize) -> (res: bool)
    requires
        node < tree@.len(),
    ensures
        res == smarty_construct_kind(tree@[node as int].kind),
{
    is_smarty_construct_kind(tree.nodes[node].kind.as_str())
}

// ---------------------------------------------------------------------------
// Direct HTML of a body
// ---------------------------------------------------------------------------

/// Source byte `pos` lies inside a control-flow node that is a named child of `body`.
pub open spec fn covered_by_control_flow_child(tree: Seq<NodeModel>, body: int, pos: int) -> bool {
    exists|j: int|
        #![trigger tree[j]]
        is_named_child(tree, body, j) && control_flow_kind(tree[j].kind) && tree[j].start_byte
            <= pos < tree[j].end_byte
}

/// The text of node `body` with every control-flow child replaced by spaces, so
/// that only the HTML written directly in the body is left, at its own offsets.
pub open spec fn direct_fragment(tree: Seq<NodeModel>, source: Seq<u8>, body: int) -> Seq<u8> {
    let s = tree[body].start_byte as int;
    let e = tree[body].end_byte as int;
    Seq::new(
        (e - s) as nat,
        |k: int|
            if covered_by_control_flow_child(tree, body, s + k) {
                32u8
            } else {
                source[s + k]
            },
    )
}

/// Control-flow named children of `body` found before index `j`, covering `pos`.
pub open spec fn covered_before(tree: Seq<NodeModel>, body: int, pos: int, j: int) -> bool {
    exists|c: int|
        #![trigger tree[c]]
        c < j && is_named_child(tree, body, c) && control_flow_kind(tree[c].kind)
            && tree[c].start_byte <= pos < tree[c].end_byte
}

/// [`direct_fragment`] of node `body`, as bytes.
pub fn direct_fragment_bytes(source: &[u8], tree: &SyntaxTree, body: usize) -> (fragment: Vec<u8>)
    requires
        body < tree@.len(),
        tree@[body as int].start_byte <= tree@[body as int].end_byte <= source@.len(),
    ensures
        fragment@ == direct_fragment(tree@, source@, body as int),
{
    let s = tree.nodes[body].start_byte;
    let e = tree.nodes[body].end_byte;
    let depth = tree.nodes[body].depth;
    let mut out: Vec<u8> = Vec::new();
    let mut p = s;
    while p < e
        invariant
            s <= p <= e <= source@.len(),
            out@.len() == p - s,
            forall|k: int| 0 <= k < out@.len() ==> #[trigger] out@[k] == source@[s + k],
        decreases e - p,
    {
        out.push(source[p]);
        p = p + 1;
    }
    let ghost t = tree@;
    let n = tree.nodes.len();
    assert(t.len() == n);
    let mut j = body + 1;
    while j < tree.nodes.len() && tree.nodes[j].depth > depth
        invariant
            t == tree@,
            body < j <= t.len(),
            s == t[body as int].start_byte,
            e == t[body as int].end_byte,
            depth == t[body as int].depth,
            s <= e <= source@.len(),
            out@.len() == e - s,
            forall|k: int| body < k < j ==> #[trigger] t[k].depth > depth,
            forall|k: int|
                0 <= k < out@.len() ==> #[trigger] out@[k] == if covered_before(
                    t,
                    body as int,
                    s + k,
                    j as int,
                ) {
                    32u8
                } else {
                    source@[s + k]
                },
        decreases t.len() - j,
    {
        let child = &tree.nodes[j];
        assert(in_subtree_from(t, body as int, j as int));
        assert(t[j as int] == child@);
        if child.depth == depth + 1 && child.is_named && is_control_flow_kind(child.kind.as_str()) {
            let lo = if child.start_byte > s {
                child.start_byte
            } else {
                s
            };
            let hi = if child.end_byte < e {
                child.end_byte
            } else {
                e
            };
            let ghost before = out@;
            let mut q = lo;
            while q < hi
                invariant
                    s <= lo <= q,
                    q <= hi || q == lo,
                    hi <= e,
                    before.len() == e - s,
                    out@.len() == e - s,
                    forall|k: int|
                        0 <= k < out@.len() ==> #[trigger] out@[k] == if lo <= s + k < q {
                            32u8
                        } else {
                            before[k]
                        },
                decreases hi - q,
            {
                out.set(q - s, 32);
                q = q + 1;
            }
            proof {
                assert forall|k: int| 0 <= k < out@.len() implies #[trigger] out@[k] == if covered_before(
                    t,
                    body as int,
                    s + k,
                    j + 1,
                ) {
                    32u8
                } else {
                    source@[s + k]
                } by {
                    if t[j as int].start_byte <= s + k < t[j as int].end_byte {
                        assert(is_named_child(t, body as int, j as int));
                        assert(covered_before(t, body as int, s + k, j + 1));
                    } else if covered_before(t, body as int, s + k, j + 1) {
                        let c = choose|c: int|
                            #![trigger t[c]]
                            c < j + 1 && is_named_child(t, body as int, c) && control_flow_kind(
                                t[c].kind,
                            ) && t[c].start_byte <= s + k < t[c].end_byte;
                        assert(c != j);
                        assert(covered_before(t, body as int, s + k, j as int));
                    }
                }
            }
        } else {
            proof {
                assert forall|k: int| 0 <= k < out@.len() implies #[trigger] out@[k] == if covered_before(
                    t,
                    body as int,
                    s + k,
                    j + 1,
                ) {
                    32u8
                } else {
                    source@[s + k]
                } by {
                    if covered_before(t, body as int, s + k, j + 1) {
                        let c = choose|c: int|
                            #![trigger t[c]]
                            c < j + 1 && is_named_child(t, body as int, c) && control_flow_kind(
                                t[c].kind,
                            ) && t[c].start_byte <= s + k < t[c].end_byte;
                        assert(c != j);
                        assert(covered_before(t, body as int, s + k, j as int));
                    }
                }
            }
        }
        j = j + 1;
    }
    proof {
        assert forall|k: int| 0 <= k < out@.len() implies #[trigger] covered_before(
            t,
            body as int,
            s + k,
            j as int,
        ) == covered_by_control_flow_child(t, body as int, s + k) by {
            if covered_by_control_flow_child(t, body as int, s + k) {
                let c = choose|c: int|
                    #![trigger t[c]]
                    is_named_child(t, body as int, c) && control_flow_kind(t[c].kind)
                        && t[c].start_byte <= s + k < t[c].end_byte;
                if c >= j {
                    assert(t[j as int].depth <= depth);
                    assert(false);
                }
            }
        }
        assert(out@ =~= direct_fragment(t, source@, body as int));
    }
    out
}

/// Node `j` continues the subtree of `i` as far as the depths seen so far go.
pub open spec fn in_subtree_from(tree: Seq<NodeModel>, i: int, j: int) -> bool {
    forall|k: int| i < k < j ==> #[trigger] tree[k].depth > tree[i].depth
}


// ---------------------------------------------------------------------------
// Direct HTML of a body, as text
// ---------------------------------------------------------------------------

/// Body `body` and its control-flow named children lie within the text, in the
/// body, and start and end on character boundaries.
pub open spec fn fragment_bounds(tree: Seq<NodeModel>, bytes: Seq<u8>, body: int) -> bool {
    let s = tree[body].start_byte as int;
    let e = tree[body].end_byte as int;
    &&& 0 <= body < tree.len()
    &&& s <= e <= bytes.len()
    &&& is_char_boundary(bytes, s)
    &&& is_char_boundary(bytes, e)
    &&& forall|j: int|
        #![trigger tree[j]]
        is_named_child(tree, body, j) && control_flow_kind(tree[j].kind) ==> {
            &&& s <= tree[j].start_byte <= tree[j].end_byte <= e
            &&& is_char_boundary(bytes, tree[j].start_byte as int)
            &&& is_char_boundary(bytes, tree[j].end_byte as int)
        }
}

/// `bytes` with positions `a..b` replaced by spaces.
pub open spec fn blank(bytes: Seq<u8>, a: int, b: int) -> Seq<u8> {
    Seq::new(bytes.len(), |k: int| if a <= k < b { 32u8 } else { bytes[k] })
}

proof fn lemma_boundary_iff(x: Seq<u8>, y: Seq<u8>, c: int)
    requires
        valid_utf8(x),
        valid_utf8(y),
        x.len() == y.len(),
        0 <= c <= x.len(),
        c < x.len() ==> (is_continuation_byte(x[c]) <==> is_continuation_byte(y[c])),
    ensures
        is_char_boundary(x, c) <==> is_char_boundary(y, c),
{
    if c < x.len() {
        is_char_boundary_iff_not_is_continuation_byte(x, c);
        is_char_boundary_iff_not_is_continuation_byte(y, c);
    } else {
        is_char_boundary_start_end_of_seq(x);
        is_char_boundary_start_end_of_seq(y);
    }
}

/// Replacing whole characters by spaces keeps text valid UTF-8 and keeps its
/// character boundaries.
proof fn lemma_blank_valid(x: Seq<u8>, a: int, b: int)
    requires
        valid_utf8(x),
        0 <= a <= b <= x.len(),
        is_char_boundary(x, a),
        is_char_boundary(x, b),
    ensures
        valid_utf8(blank(x, a, b)),
        forall|c: int|
            0 <= c <= x.len() && is_char_boundary(x, c) ==> #[trigger] is_char_boundary(
                blank(x, a, b),
                c,
            ),
{
    let y = blank(x, a, b);
    let spaces = Seq::new((b - a) as nat, |k: int| 32u8);
    valid_utf8_split(x, a);
    valid_utf8_split(x, b);
    assert(spaces.subrange(0, 0) =~= Seq::<u8>::empty());
    assert(partial_valid_utf8(spaces, 0));
    partial_valid_utf8_extend_ascii_block(spaces, 0, spaces.len() as int);
    assert(spaces.subrange(0, spaces.len() as int) =~= spaces);
    let head = x.subrange(0, a);
    let tail = x.subrange(b, x.len() as int);
    valid_utf8_concat(head, spaces);
    valid_utf8_concat(head + spaces, tail);
    assert(y =~= head + spaces + tail);
    assert forall|c: int| 0 <= c <= x.len() && is_char_boundary(x, c) implies #[trigger] is_char_boundary(
        y,
        c,
    ) by {
        if c < x.len() {
            is_char_boundary_iff_not_is_continuation_byte(x, c);
            is_char_boundary_iff_not_is_continuation_byte(y, c);
        } else {
            is_char_boundary_start_end_of_seq(y);
        }
    }
}

/// The body text with the control-flow named children before index `j` blanked.
pub open spec fn blanked_upto(tree: Seq<NodeModel>, bytes: Seq<u8>, body: int, j: int) -> Seq<u8> {
    let s = tree[body].start_byte as int;
    let e = tree[body].end_byte as int;
    Seq::new(
        (e - s) as nat,
        |k: int|
            if covered_before(tree, body, s + k, j) {
                32u8
            } else {
                bytes[s + k]
            },
    )
}

proof fn lemma_blanked_upto_valid(tree: Seq<NodeModel>, bytes: Seq<u8>, body: int, j: int)
    requires
        valid_utf8(bytes),
        fragment_bounds(tree, bytes, body),
        body < j <= tree.len(),
    ensures
        valid_utf8(blanked_upto(tree, bytes, body, j)),
        forall|c: int|
            0 <= c <= tree[body].end_byte - tree[body].start_byte && is_char_boundary(
                bytes,
                tree[body].start_byte + c,
            ) ==> #[trigger] is_char_boundary(blanked_upto(tree, bytes, body, j), c),
    decreases j - body,
{
    let s = tree[body].start_byte as int;
    let e = tree[body].end_byte as int;
    let f = blanked_upto(tree, bytes, body, j);
    if j == body + 1 {
        let piece = bytes.subrange(s, e);
        valid_utf8_split(bytes, e);
        let front = bytes.subrange(0, e);
        assert(is_char_boundary(front, s)) by {
            lemma_boundary_iff(bytes.subrange(0, e), bytes.subrange(0, e), s);
            if s < e {
                is_char_boundary_iff_not_is_continuation_byte(bytes, s);
                is_char_boundary_iff_not_is_continuation_byte(front, s);
            } else {
                is_char_boundary_start_end_of_seq(front);
            }
        }
        valid_utf8_split(front, s);
        assert(front.subrange(s, e) =~= piece);
        assert forall|k: int| 0 <= k < f.len() implies f[k] == piece[k] by {
            if covered_before(tree, body, s + k, j) {
                let c = choose|c: int|
                    #![trigger tree[c]]
                    c < j && is_named_child(tree, body, c) && control_flow_kind(tree[c].kind)
                        && tree[c].start_byte <= s + k < tree[c].end_byte;
            }
        }
        assert(f =~= piece);
        assert forall|c: int|
            0 <= c <= e - s && is_char_boundary(bytes, s + c) implies #[trigger] is_char_boundary(
            f,
            c,
        ) by {
            if c < e - s {
                is_char_boundary_iff_not_is_continuation_byte(bytes, s + c);
                is_char_boundary_iff_not_is_continuation_byte(f, c);
            } else {
                is_char_boundary_start_end_of_seq(f);
            }
        }
    } else {
        lemma_blanked_upto_valid(tree, bytes, body, j - 1);
        let g = blanked_upto(tree, bytes, body, j - 1);
        let c0 = j - 1;
        if is_named_child(tree, body, c0) && control_flow_kind(tree[c0].kind) {
            let a = tree[c0].start_byte - s;
            let b = tree[c0].end_byte - s;
            assert(s <= tree[c0].start_byte <= tree[c0].end_byte <= e);
            assert(is_char_boundary(g, a));
            assert(is_char_boundary(g, b));
            lemma_blank_valid(g, a, b);
            assert forall|k: int| 0 <= k < f.len() implies f[k] == blank(g, a, b)[k] by {
                if covered_before(tree, body, s + k, j) && !(a <= k < b) {
                    let c = choose|c: int|
                        #![trigger tree[c]]
                        c < j && is_named_child(tree, body, c) && control_flow_kind(tree[c].kind)
                            && tree[c].start_byte <= s + k < tree[c].end_byte;
                    assert(c != c0);
                    assert(covered_before(tree, body, s + k, j - 1));
                }
                if a <= k < b {
                    assert(covered_before(tree, body, s + k, j));
                }
                if covered_before(tree, body, s + k, j - 1) {
                    let c = choose|c: int|
                        #![trigger tree[c]]
                        c < j - 1 && is_named_child(tree, body, c) && control_flow_kind(tree[c].kind)
                            && tree[c].start_byte <= s + k < tree[c].end_byte;
                    assert(covered_before(tree, body, s + k, j));
                }
            }
            assert(f =~= blank(g, a, b));
        } else {
            assert forall|k: int| 0 <= k < f.len() implies f[k] == g[k] by {
                if covered_before(tree, body, s + k, j) {
                    let c = choose|c: int|
                        #![trigger tree[c]]
                        c < j && is_named_child(tree, body, c) && control_flow_kind(tree[c].kind)
                            && tree[c].start_byte <= s + k < tree[c].end_byte;
                    assert(c != c0);
                    assert(covered_before(tree, body, s + k, j - 1));
                }
                if covered_before(tree, body, s + k, j - 1) {
                    let c = choose|c: int|
                        #![trigger tree[c]]
                        c < j - 1 && is_named_child(tree, body, c) && control_flow_kind(tree[c].kind)
                            && tree[c].start_byte <= s + k < tree[c].end_byte;
                    assert(covered_before(tree, body, s + k, j));
                }
            }
            assert(f =~= g);
        }
    }
}

/// The direct HTML of a body whose control-flow children end on character
/// boundaries is valid UTF-8.
pub proof fn lemma_direct_fragment_valid(tree: Seq<NodeModel>, bytes: Seq<u8>, body: int)
    requires
        valid_utf8(bytes),
        fragment_bounds(tree, bytes, body),
    ensures
        valid_utf8(direct_fragment(tree, bytes, body)),
{
    lemma_blanked_upto_valid(tree, bytes, body, tree.len() as int);
    let s = tree[body].start_byte as int;
    let f = blanked_upto(tree, bytes, body, tree.len() as int);
    assert forall|k: int| 0 <= k < f.len() implies f[k] == direct_fragment(tree, bytes, body)[k] by {
        if covered_by_control_flow_child(tree, body, s + k) {
            let c = choose|c: int|
                #![trigger tree[c]]
                is_named_child(tree, body, c) && control_flow_kind(tree[c].kind)
                    && tree[c].start_byte <= s + k < tree[c].end_byte;
            assert(covered_before(tree, body, s + k, tree.len() as int));
        }
    }
    assert(f =~= direct_fragment(tree, bytes, body));
}

/// The text of body `body` with every control-flow child replaced by spaces, so
/// that only the HTML written directly in the body is left, at its own offsets.
pub fn direct_html_fragment(source: &str, tree: &SyntaxTree, body: usize) -> (fragment: String)
    requires
        fragment_bounds(tree@, source.spec_bytes(), body as int),
    ensures
        fragment@ == decode_utf8(direct_fragment(tree@, source.spec_bytes(), body as int)),
{
    let bytes = source.as_bytes();
    let fragment = direct_fragment_bytes(bytes, tree, body);
    proof {
        vstd::utf8::encode_utf8_valid_utf8(source@);
        lemma_direct_fragment_valid(tree@, bytes@, body as int);
    }
    match string_from_utf8(fragment) {
        Some(text) => text,
        None => {
            proof {
                assert(false);
            }
            String::new()
        },
    }
}

} // verus!
