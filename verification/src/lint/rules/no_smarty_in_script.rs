use vstd::prelude::*;

use crate::diagnostic::{Diagnostic, DiagnosticModel, Severity};
use crate::lint::html::{script_body_ranges_in, script_ranges_from, ScriptBodyRange};
use crate::lint::smarty::{
    control_flow_kind, is_control_flow, is_smarty_construct, smarty_construct_kind,
};
use crate::lint::{LintContext, Rule};
use crate::parser::{in_subtree, node_range, spans_nested, range_from_node, NodeModel, SyntaxNode, SyntaxTree};
use vstd::string::StringSliceAdditionalSpecFns;

verus! {

/// The identifier of the rule that rejects control flow in script bodies.
pub const LENIENT_RULE_ID: &'static str = "smarty/no-control-flow-in-script";

/// The identifier of the rule that rejects every Smarty statement in script bodies.
pub const STRICT_RULE_ID: &'static str = "smarty/no-smarty-in-script";

/// Reports Smarty control-flow blocks inside `<script>` bodies.
pub struct NoControlFlowInScript;

/// Reports every Smarty statement, inline output included, inside `<script>` bodies.
pub struct NoSmartyInScript;

/// Which Smarty nodes a script rule reports.
pub enum Mode {
    Lenient,
    Strict,
}

/// The node kinds that a rule in `mode` reports.
pub open spec fn mode_matches(mode: Mode, kind: Seq<char>) -> bool {
    match mode {
        Mode::Lenient => control_flow_kind(kind),
        Mode::Strict => smarty_construct_kind(kind),
    }
}

/// The identifier of the rule in `mode`.
pub open spec fn mode_rule_id(mode: Mode) -> Seq<char> {
    match mode {
        Mode::Lenient => LENIENT_RULE_ID@,
        Mode::Strict => STRICT_RULE_ID@,
    }
}

/// The message for a node of kind `kind` in a script body.
pub open spec fn mode_message(mode: Mode, kind: Seq<char>) -> Seq<char> {
    match mode {
        Mode::Lenient => "Smarty control-flow statement `"@ + kind
            + "` is not allowed inside a script body"@,
        Mode::Strict => "Smarty statement `"@ + kind + "` is not allowed inside a script body"@,
    }
}

/// The node lies entirely within one of the script bodies.
pub open spec fn inside_script_body(node: NodeModel, bodies: Seq<ScriptBodyRange>) -> bool {
    exists|k: int|
        0 <= k < bodies.len() && node.start_byte >= #[trigger] bodies[k].start_byte
            && node.end_byte <= bodies[k].end_byte
}

/// The finding for a reported node.
pub open spec fn script_finding(mode: Mode, node: NodeModel) -> DiagnosticModel {
    DiagnosticModel {
        rule_id: mode_rule_id(mode),
        message: mode_message(mode, node.kind),
        severity: Severity::Error,
        range: node_range(node),
    }
}

/// Node `node` is reported, unless it lies below a node that is.
pub open spec fn reported(mode: Mode, node: NodeModel, bodies: Seq<ScriptBodyRange>) -> bool {
    node.is_named && mode_matches(mode, node.kind) && inside_script_body(node, bodies)
}

/// The findings among nodes `i..` of `tree`, walking in tree order; below a
/// reported node nothing more is reported. `cut` is the depth of the reported
/// node whose subtree the walk is in, if any.
pub open spec fn script_findings_from(
    tree: Seq<NodeModel>,
    bodies: Seq<ScriptBodyRange>,
    mode: Mode,
    i: int,
    cut: Option<usize>,
) -> Seq<DiagnosticModel>
    decreases tree.len() - i,
{
    if i < 0 || i >= tree.len() {
        seq![]
    } else if cut matches Some(d) && tree[i].depth > d {
        script_findings_from(tree, bodies, mode, i + 1, cut)
    } else if reported(mode, tree[i], bodies) {
        seq![script_finding(mode, tree[i])] + script_findings_from(
            tree,
            bodies,
            mode,
            i + 1,
            Some(tree[i].depth),
        )
    } else {
        script_findings_from(tree, bodies, mode, i + 1, None)
    }
}

/// What a script rule in `mode` finds in a template.
pub open spec fn script_findings(mode: Mode, source: Seq<u8>, tree: Seq<NodeModel>) -> Seq<
    DiagnosticModel,
> {
    script_findings_from(tree, script_ranges_from(source, 0), mode, 0, None)
}

/// Without script bodies nothing is reported.
pub proof fn lemma_no_bodies_no_findings(
    tree: Seq<NodeModel>,
    bodies: Seq<ScriptBodyRange>,
    mode: Mode,
    i: int,
    cut: Option<usize>,
)
    requires
        bodies.len() == 0,
    ensures
        script_findings_from(tree, bodies, mode, i, cut) == Seq::<DiagnosticModel>::empty(),
    decreases tree.len() - i,
{
    if i < 0 || i >= tree.len() {
    } else if cut matches Some(d) && tree[i].depth > d {
        lemma_no_bodies_no_findings(tree, bodies, mode, i + 1, cut);
    } else {
        lemma_no_bodies_no_findings(tree, bodies, mode, i + 1, None);
    }
}

/// The range lies inside one of the script bodies.
pub open spec fn range_inside_script_body(start: usize, end: usize, bodies: Seq<ScriptBodyRange>) -> bool {
    exists|k: int|
        0 <= k < bodies.len() && start >= #[trigger] bodies[k].start_byte && end <= bodies[k].end_byte
}

/// Every finding of a script rule is an error of that rule about a node that
/// lies inside a script body.
pub proof fn lemma_findings_inside_script_bodies(
    tree: Seq<NodeModel>,
    bodies: Seq<ScriptBodyRange>,
    mode: Mode,
    i: int,
    cut: Option<usize>,
)
    ensures
        forall|k: int|
            0 <= k < script_findings_from(tree, bodies, mode, i, cut).len() ==> {
                let d = #[trigger] script_findings_from(tree, bodies, mode, i, cut)[k];
                &&& range_inside_script_body(d.range.start_byte, d.range.end_byte, bodies)
                &&& d.rule_id == mode_rule_id(mode)
                &&& d.severity == Severity::Error
            },
    decreases tree.len() - i,
{
    if i < 0 || i >= tree.len() {
    } else if cut matches Some(d) && tree[i].depth > d {
        lemma_findings_inside_script_bodies(tree, bodies, mode, i + 1, cut);
    } else if reported(mode, tree[i], bodies) {
        lemma_findings_inside_script_bodies(tree, bodies, mode, i + 1, Some(tree[i].depth));
        let rest = script_findings_from(tree, bodies, mode, i + 1, Some(tree[i].depth));
        let all = script_findings_from(tree, bodies, mode, i, cut);
        assert forall|k: int| 0 <= k < all.len() implies {
            let d = #[trigger] all[k];
            &&& range_inside_script_body(d.range.start_byte, d.range.end_byte, bodies)
            &&& d.rule_id == mode_rule_id(mode)
            &&& d.severity == Severity::Error
        } by {
            if k == 0 {
                let b = choose|b: int|
                    0 <= b < bodies.len() && tree[i].start_byte >= #[trigger] bodies[b].start_byte
                        && tree[i].end_byte <= bodies[b].end_byte;
                assert(all[0].range.start_byte >= bodies[b].start_byte);
            } else {
                assert(all[k] == rest[k - 1]);
            }
        }
    } else {
        lemma_findings_inside_script_bodies(tree, bodies, mode, i + 1, None);
    }
}

proof fn lemma_quiet_walk_reports_nothing(
    tree: Seq<NodeModel>,
    bodies: Seq<ScriptBodyRange>,
    mode: Mode,
    i: int,
)
    requires
        0 <= i,
        script_findings_from(tree, bodies, mode, i, None).len() == 0,
    ensures
        forall|j: int| i <= j < tree.len() ==> !reported(mode, #[trigger] tree[j], bodies),
    decreases tree.len() - i,
{
    if i < tree.len() {
        if !reported(mode, tree[i], bodies) {
            lemma_quiet_walk_reports_nothing(tree, bodies, mode, i + 1);
        }
    }
}

proof fn lemma_nothing_reported_quiet(
    tree: Seq<NodeModel>,
    bodies: Seq<ScriptBodyRange>,
    mode: Mode,
    i: int,
    cut: Option<usize>,
)
    requires
        0 <= i,
        forall|j: int| i <= j < tree.len() ==> !reported(mode, #[trigger] tree[j], bodies),
    ensures
        script_findings_from(tree, bodies, mode, i, cut).len() == 0,
    decreases tree.len() - i,
{
    if i < tree.len() {
        assert(!reported(mode, tree[i], bodies));
        if cut matches Some(d) && tree[i].depth > d {
            lemma_nothing_reported_quiet(tree, bodies, mode, i + 1, cut);
        } else {
            lemma_nothing_reported_quiet(tree, bodies, mode, i + 1, None);
        }
    }
}

/// When the strict rule reports nothing, the lenient rule reports nothing either:
/// every control-flow block is a Smarty statement.
pub proof fn lemma_strict_quiet_implies_lenient_quiet(source: Seq<u8>, tree: Seq<NodeModel>)
    requires
        script_findings(Mode::Strict, source, tree).len() == 0,
    ensures
        script_findings(Mode::Lenient, source, tree).len() == 0,
{
    let bodies = script_ranges_from(source, 0);
    lemma_quiet_walk_reports_nothing(tree, bodies, Mode::Strict, 0);
    assert forall|j: int| 0 <= j < tree.len() implies !reported(
        Mode::Lenient,
        #[trigger] tree[j],
        bodies,
    ) by {
        crate::lint::smarty::lemma_control_flow_is_construct(tree[j].kind);
        assert(!reported(Mode::Strict, tree[j], bodies));
    }
    lemma_nothing_reported_quiet(tree, bodies, Mode::Lenient, 0, None);
}

/// The indices of the nodes that the walk from `i` reports, in order.
pub open spec fn reported_nodes_from(
    tree: Seq<NodeModel>,
    bodies: Seq<ScriptBodyRange>,
    mode: Mode,
    i: int,
    cut: Option<usize>,
) -> Seq<int>
    decreases tree.len() - i,
{
    if i < 0 || i >= tree.len() {
        seq![]
    } else if cut matches Some(d) && tree[i].depth > d {
        reported_nodes_from(tree, bodies, mode, i + 1, cut)
    } else if reported(mode, tree[i], bodies) {
        seq![i] + reported_nodes_from(tree, bodies, mode, i + 1, Some(tree[i].depth))
    } else {
        reported_nodes_from(tree, bodies, mode, i + 1, None)
    }
}

/// The findings are those of the reported nodes, in order.
pub proof fn lemma_findings_of_reported_nodes(
    tree: Seq<NodeModel>,
    bodies: Seq<ScriptBodyRange>,
    mode: Mode,
    i: int,
    cut: Option<usize>,
)
    ensures
        script_findings_from(tree, bodies, mode, i, cut) == reported_nodes_from(
            tree,
            bodies,
            mode,
            i,
            cut,
        ).map_values(|n: int| script_finding(mode, tree[n])),
    decreases tree.len() - i,
{
    let f = |n: int| script_finding(mode, tree[n]);
    if i < 0 || i >= tree.len() {
        assert(reported_nodes_from(tree, bodies, mode, i, cut).map_values(f) =~= Seq::<
            DiagnosticModel,
        >::empty());
    } else if cut matches Some(d) && tree[i].depth > d {
        lemma_findings_of_reported_nodes(tree, bodies, mode, i + 1, cut);
    } else if reported(mode, tree[i], bodies) {
        lemma_findings_of_reported_nodes(tree, bodies, mode, i + 1, Some(tree[i].depth));
        let rest = reported_nodes_from(tree, bodies, mode, i + 1, Some(tree[i].depth));
        assert((seq![i] + rest).map_values(f) =~= seq![f(i)] + rest.map_values(f));
    } else {
        lemma_findings_of_reported_nodes(tree, bodies, mode, i + 1, None);
    }
}

/// The reported nodes from `i` are reported ones after `i`, in increasing order;
/// under a cut at depth `d`, each one comes at or after a node no deeper than `d`.
#[verifier::spinoff_prover]
proof fn lemma_reported_nodes_shape(
    tree: Seq<NodeModel>,
    bodies: Seq<ScriptBodyRange>,
    mode: Mode,
    i: int,
    cut: Option<usize>,
)
    requires
        0 <= i,
    ensures
        ({
            let r = reported_nodes_from(tree, bodies, mode, i, cut);
            &&& forall|p: int|
                0 <= p < r.len() ==> i <= #[trigger] r[p] < tree.len() && reported(
                    mode,
                    tree[r[p]],
                    bodies,
                )
            &&& forall|p: int, q: int| 0 <= p < q < r.len() ==> #[trigger] r[p] < #[trigger] r[q]
            &&& cut matches Some(d) ==> forall|p: int|
                0 <= p < r.len() ==> exists|k: int|
                    i <= k <= #[trigger] r[p] && tree[k].depth <= d
        }),
    decreases tree.len() - i,
{
    let r = reported_nodes_from(tree, bodies, mode, i, cut);
    if i >= tree.len() {
    } else if cut matches Some(d) && tree[i].depth > d {
        let d = cut->0;
        lemma_reported_nodes_shape(tree, bodies, mode, i + 1, cut);
        let rest = reported_nodes_from(tree, bodies, mode, i + 1, cut);
        assert(r == rest);
        assert forall|p: int| 0 <= p < r.len() implies i <= #[trigger] r[p] < tree.len() && reported(
            mode,
            tree[r[p]],
            bodies,
        ) by {
            assert(r[p] == rest[p]);
        }
        assert forall|p: int, q: int| 0 <= p < q < r.len() implies #[trigger] r[p] < #[trigger] r[q] by {
            assert(r[p] == rest[p] && r[q] == rest[q]);
        }
        assert forall|p: int| 0 <= p < r.len() implies exists|k: int|
            i <= k <= #[trigger] r[p] && tree[k].depth <= d by {
            assert(r[p] == rest[p]);
            let k = choose|k: int| i + 1 <= k <= rest[p] && tree[k].depth <= d;
            assert(i <= k <= r[p] && tree[k].depth <= d);
        }
    } else if reported(mode, tree[i], bodies) {
        lemma_reported_nodes_shape(tree, bodies, mode, i + 1, Some(tree[i].depth));
        let rest = reported_nodes_from(tree, bodies, mode, i + 1, Some(tree[i].depth));
        assert(r == seq![i] + rest);
        assert forall|p: int| 0 <= p < r.len() implies i <= #[trigger] r[p] < tree.len() && reported(
            mode,
            tree[r[p]],
            bodies,
        ) by {
            if p > 0 {
                assert(r[p] == rest[p - 1]);
            }
        }
        assert forall|p: int, q: int| 0 <= p < q < r.len() implies #[trigger] r[p] < #[trigger] r[q] by {
            assert(r[q] == rest[q - 1]);
            if p > 0 {
                assert(r[p] == rest[p - 1]);
            }
        }
        if cut is Some {
            let d = cut->0;
            assert(tree[i].depth <= d);
            assert forall|p: int| 0 <= p < r.len() implies exists|k: int|
                i <= k <= #[trigger] r[p] && tree[k].depth <= d by {
                if p > 0 {
                    assert(r[p] == rest[p - 1]);
                }
                assert(i <= i <= r[p] && tree[i].depth <= d);
            }
        }
    } else {
        lemma_reported_nodes_shape(tree, bodies, mode, i + 1, None);
        let rest = reported_nodes_from(tree, bodies, mode, i + 1, None);
        assert(r == rest);
        assert forall|p: int| 0 <= p < r.len() implies i <= #[trigger] r[p] < tree.len() && reported(
            mode,
            tree[r[p]],
            bodies,
        ) by {
            assert(r[p] == rest[p]);
        }
        assert forall|p: int, q: int| 0 <= p < q < r.len() implies #[trigger] r[p] < #[trigger] r[q] by {
            assert(r[p] == rest[p] && r[q] == rest[q]);
        }
        if cut is Some {
            let d = cut->0;
            assert(tree[i].depth <= d);
            assert forall|p: int| 0 <= p < r.len() implies exists|k: int|
                i <= k <= #[trigger] r[p] && tree[k].depth <= d by {
                assert(i <= i <= r[p] && tree[i].depth <= d);
            }
        }
    }
}

/// No reported node lies in the subtree of another reported node: below a
/// reported Smarty statement nothing more is reported.
pub proof fn lemma_reported_nodes_not_nested(
    tree: Seq<NodeModel>,
    bodies: Seq<ScriptBodyRange>,
    mode: Mode,
    i: int,
    cut: Option<usize>,
)
    requires
        0 <= i,
    ensures
        ({
            let r = reported_nodes_from(tree, bodies, mode, i, cut);
            forall|p: int, q: int|
                0 <= p < r.len() && 0 <= q < r.len() && p != q ==> !in_subtree(
                    tree,
                    #[trigger] r[p],
                    #[trigger] r[q],
                )
        }),
    decreases tree.len() - i,
{
    let r = reported_nodes_from(tree, bodies, mode, i, cut);
    lemma_reported_nodes_shape(tree, bodies, mode, i, cut);
    if i >= tree.len() {
    } else if cut matches Some(d) && tree[i].depth > d {
        lemma_reported_nodes_not_nested(tree, bodies, mode, i + 1, cut);
        assert(r == reported_nodes_from(tree, bodies, mode, i + 1, cut));
    } else if reported(mode, tree[i], bodies) {
        let d = tree[i].depth;
        lemma_reported_nodes_not_nested(tree, bodies, mode, i + 1, Some(d));
        lemma_reported_nodes_shape(tree, bodies, mode, i + 1, Some(d));
        let rest = reported_nodes_from(tree, bodies, mode, i + 1, Some(d));
        assert(r == seq![i] + rest);
        assert forall|p: int, q: int|
            0 <= p < r.len() && 0 <= q < r.len() && p != q implies !in_subtree(
            tree,
            #[trigger] r[p],
            #[trigger] r[q],
        ) by {
            if p > 0 && q > 0 {
                assert(r[p] == rest[p - 1]);
                assert(r[q] == rest[q - 1]);
            } else if p == 0 {
                assert(r[q] == rest[q - 1]);
                let k = choose|k: int| i + 1 <= k <= rest[q - 1] && tree[k].depth <= d;
                assert(!(tree[k].depth > tree[i].depth));
            } else {
                assert(r[p] == rest[p - 1]);
                assert(r[p] > r[q]);
            }
        }
    } else {
        lemma_reported_nodes_not_nested(tree, bodies, mode, i + 1, None);
        assert(r == reported_nodes_from(tree, bodies, mode, i + 1, None));
    }
}

/// In a tree whose spans nest, the findings of a script rule come in order of
/// their ranges, and no two of them overlap.
pub proof fn lemma_script_findings_ordered(mode: Mode, source: Seq<u8>, tree: Seq<NodeModel>)
    requires
        spans_nested(tree),
    ensures
        ({
            let f = script_findings(mode, source, tree);
            &&& forall|p: int|
                0 <= p < f.len() ==> (#[trigger] f[p]).range.start_byte <= f[p].range.end_byte
            &&& forall|p: int, q: int|
                0 <= p < q < f.len() ==> (#[trigger] f[p]).range.end_byte <= (
                #[trigger] f[q]).range.start_byte
        }),
{
    let bodies = script_ranges_from(source, 0);
    let f = script_findings(mode, source, tree);
    let r = reported_nodes_from(tree, bodies, mode, 0, None);
    lemma_findings_of_reported_nodes(tree, bodies, mode, 0, None);
    lemma_reported_nodes_shape(tree, bodies, mode, 0, None);
    lemma_reported_nodes_not_nested(tree, bodies, mode, 0, None);
    assert(f.len() == r.len());
    assert forall|p: int| 0 <= p < f.len() implies (#[trigger] f[p]).range.start_byte
        <= f[p].range.end_byte by {
        assert(f[p] == script_finding(mode, tree[r[p]]));
        assert(tree[r[p]].start_byte <= tree[r[p]].end_byte);
    }
    assert forall|p: int, q: int| 0 <= p < q < f.len() implies (#[trigger] f[p]).range.end_byte <= (
    #[trigger] f[q]).range.start_byte by {
        assert(f[p] == script_finding(mode, tree[r[p]]));
        assert(f[q] == script_finding(mode, tree[r[q]]));
        assert(r[p] < r[q]);
        assert(!in_subtree(tree, r[p], r[q]));
        assert(tree[r[p]].end_byte <= tree[r[q]].start_byte);
    }
}

/// A node that the walk reaches outside every reported subtree is reported
/// when it is named, is one of the kinds of `mode`, and lies within any one of
/// the script bodies: the first finding of the walk from it is its own.
proof fn lemma_walk_reports_node(
    tree: Seq<NodeModel>,
    bodies: Seq<ScriptBodyRange>,
    mode: Mode,
    i: int,
    cut: Option<usize>,
    k: int,
)
    requires
        0 <= i < tree.len(),
        cut matches Some(d) ==> tree[i].depth <= d,
        tree[i].is_named,
        mode_matches(mode, tree[i].kind),
        0 <= k < bodies.len(),
        bodies[k].start_byte <= tree[i].start_byte,
        tree[i].end_byte <= bodies[k].end_byte,
    ensures
        script_findings_from(tree, bodies, mode, i, cut).len() > 0,
        script_findings_from(tree, bodies, mode, i, cut)[0] == script_finding(mode, tree[i]),
{
    assert(inside_script_body(tree[i], bodies));
    assert(reported(mode, tree[i], bodies));
}

/// The rule against control flow in scripts reports every named Smarty
/// control-flow node (if, elseif, else, foreach, foreachelse, for, forelse,
/// section, sectionelse, while, block) that the walk reaches outside every
/// reported subtree, whichever script body it lies in.
pub proof fn lemma_lenient_reports_control_flow(
    tree: Seq<NodeModel>,
    bodies: Seq<ScriptBodyRange>,
    i: int,
    cut: Option<usize>,
    k: int,
)
    requires
        0 <= i < tree.len(),
        cut matches Some(d) ==> tree[i].depth <= d,
        tree[i].is_named,
        ({
            let kind = tree[i].kind;
            ||| kind == "if_block"@
            ||| kind == "elseif_block"@
            ||| kind == "else_block"@
            ||| kind == "foreach_block"@
            ||| kind == "foreachelse_block"@
            ||| kind == "for_block"@
            ||| kind == "forelse_block"@
            ||| kind == "section_block"@
            ||| kind == "sectionelse_block"@
            ||| kind == "while_block"@
            ||| kind == "block"@
        }),
        0 <= k < bodies.len(),
        bodies[k].start_byte <= tree[i].start_byte,
        tree[i].end_byte <= bodies[k].end_byte,
    ensures
        script_findings_from(tree, bodies, Mode::Lenient, i, cut).len() > 0,
        script_findings_from(tree, bodies, Mode::Lenient, i, cut)[0] == (DiagnosticModel {
            rule_id: "smarty/no-control-flow-in-script"@,
            message: "Smarty control-flow statement `"@ + tree[i].kind
                + "` is not allowed inside a script body"@,
            severity: Severity::Error,
            range: node_range(tree[i]),
        }),
{
    lemma_walk_reports_node(tree, bodies, Mode::Lenient, i, cut, k);
}

/// The rule against any Smarty in scripts reports every named Smarty statement
/// (a tag, inline output, a literal block or any control-flow block) that the
/// walk reaches outside every reported subtree, whichever script body it lies in.
pub proof fn lemma_strict_reports_statements(
    tree: Seq<NodeModel>,
    bodies: Seq<ScriptBodyRange>,
    i: int,
    cut: Option<usize>,
    k: int,
)
    requires
        0 <= i < tree.len(),
        cut matches Some(d) ==> tree[i].depth <= d,
        tree[i].is_named,
        ({
            let kind = tree[i].kind;
            ||| kind == "tag"@
            ||| kind == "inline"@
            ||| kind == "literal_block"@
            ||| kind == "if_block"@
            ||| kind == "elseif_block"@
            ||| kind == "else_block"@
            ||| kind == "foreach_block"@
            ||| kind == "foreachelse_block"@
            ||| kind == "for_block"@
            ||| kind == "forelse_block"@
            ||| kind == "section_block"@
            ||| kind == "sectionelse_block"@
            ||| kind == "while_block"@
            ||| kind == "block"@
        }),
        0 <= k < bodies.len(),
        bodies[k].start_byte <= tree[i].start_byte,
        tree[i].end_byte <= bodies[k].end_byte,
    ensures
        script_findings_from(tree, bodies, Mode::Strict, i, cut).len() > 0,
        script_findings_from(tree, bodies, Mode::Strict, i, cut)[0] == (DiagnosticModel {
            rule_id: "smarty/no-smarty-in-script"@,
            message: "Smarty statement `"@ + tree[i].kind + "` is not allowed inside a script body"@,
            severity: Severity::Error,
            range: node_range(tree[i]),
        }),
{
    lemma_walk_reports_node(tree, bodies, Mode::Strict, i, cut, k);
}

/// The kinds each rule reports: the rule against control flow only
/// control-flow blocks (if, elseif, else, foreach, foreachelse, for, forelse,
/// section, sectionelse, while, block); the strict rule also tags, inline output
/// and literal blocks.
pub open spec fn reportable_kind(mode: Mode, kind: Seq<char>) -> bool {
    match mode {
        Mode::Lenient => {
            ||| kind == "if_block"@
            ||| kind == "elseif_block"@
            ||| kind == "else_block"@
            ||| kind == "foreach_block"@
            ||| kind == "foreachelse_block"@
            ||| kind == "for_block"@
            ||| kind == "forelse_block"@
            ||| kind == "section_block"@
            ||| kind == "sectionelse_block"@
            ||| kind == "while_block"@
            ||| kind == "block"@
        },
        Mode::Strict => {
            ||| kind == "tag"@
            ||| kind == "inline"@
            ||| kind == "literal_block"@
            ||| kind == "if_block"@
            ||| kind == "elseif_block"@
            ||| kind == "else_block"@
            ||| kind == "foreach_block"@
            ||| kind == "foreachelse_block"@
            ||| kind == "for_block"@
            ||| kind == "forelse_block"@
            ||| kind == "section_block"@
            ||| kind == "sectionelse_block"@
            ||| kind == "while_block"@
            ||| kind == "block"@
        },
    }
}

/// Every finding of a script rule is about a named node of a kind that the
/// rule reports: the findings are those of the nodes `reported_nodes_from`
/// lists, in order, and each of those nodes is named and of such a kind.
pub proof fn lemma_findings_are_of_reportable_nodes(
    tree: Seq<NodeModel>,
    bodies: Seq<ScriptBodyRange>,
    mode: Mode,
)
    ensures
        script_findings_from(tree, bodies, mode, 0, None) == reported_nodes_from(
            tree,
            bodies,
            mode,
            0,
            None,
        ).map_values(|n: int| script_finding(mode, tree[n])),
        forall|p: int|
            0 <= p < reported_nodes_from(tree, bodies, mode, 0, None).len() ==> {
                let n = #[trigger] reported_nodes_from(tree, bodies, mode, 0, None)[p];
                &&& 0 <= n < tree.len()
                &&& tree[n].is_named
                &&& reportable_kind(mode, tree[n].kind)
            },
{
    lemma_findings_of_reported_nodes(tree, bodies, mode, 0, None);
    lemma_reported_nodes_shape(tree, bodies, mode, 0, None);
}

fn matches_mode(tree: &SyntaxTree, node: usize, mode: &Mode) -> (res: bool)
    requires
        node < tree@.len(),
    ensures
        res == mode_matches(*mode, tree@[node as int].kind),
{
    match mode {
        Mode::Lenient => is_control_flow(tree, node),
        Mode::Strict => is_smarty_construct(tree, node),
    }
}

fn is_inside_script_body(node: &SyntaxNode, script_bodies: &[ScriptBodyRange]) -> (res: bool)
    ensures
        res == inside_script_body(node@, script_bodies@),
{
    let mut k: usize = 0;
    while k < script_bodies.len()
        invariant
            k <= script_bodies@.len(),
            forall|j: int|
                0 <= j < k ==> !(node.start_byte >= #[trigger] script_bodies@[j].start_byte
                    && node.end_byte <= script_bodies@[j].end_byte),
        decreases script_bodies.len() - k,
    {
        if node.start_byte >= script_bodies[k].start_byte && node.end_byte
            <= script_bodies[k].end_byte {
            return true;
        }
        k = k + 1;
    }
    false
}

/// The identifier of the rule in `mode`.
fn rule_id(mode: &Mode) -> (id: &'static str)
    ensures
        id@ == mode_rule_id(*mode),
{
    match mode {
        Mode::Lenient => LENIENT_RULE_ID,
        Mode::Strict => STRICT_RULE_ID,
    }
}

/// The message for `node` in a script body.
fn message(node: &SyntaxNode, mode: &Mode) -> (text: String)
    ensures
        text@ == mode_message(*mode, node.kind@),
{
    match mode {
        Mode::Lenient => {
            let mut text = String::from_str("Smarty control-flow statement `");
            text.append(node.kind.as_str());
            text.append("` is not allowed inside a script body");
            text
        },
        Mode::Strict => {
            let mut text = String::from_str("Smarty statement `");
            text.append(node.kind.as_str());
            text.append("` is not allowed inside a script body");
            text
        },
    }
}

/// Appends the findings of the script rule in `mode`.
fn check_script_bodies(ctx: &LintContext<'_>, mode: Mode, diagnostics: &mut Vec<Diagnostic>)
    ensures
        final(diagnostics).deep_view() == old(diagnostics).deep_view() + script_findings(
            mode,
            ctx.source.spec_bytes(),
            ctx.smarty_tree@,
        ),
{
    let script_bodies = script_body_ranges_in(ctx.source.as_bytes());
    if script_bodies.len() == 0 {
        proof {
            lemma_no_bodies_no_findings(ctx.smarty_tree@, script_bodies@, mode, 0, None);
        }
        assert(diagnostics.deep_view() + Seq::<DiagnosticModel>::empty() =~= diagnostics.deep_view());
        return;
    }
    check_node(&ctx.smarty_tree, script_bodies.as_slice(), &mode, diagnostics);
}

/// Walks the tree in order and reports every matching node inside a script
/// body, skipping what lies below a reported node.
fn check_node(
    tree: &SyntaxTree,
    script_bodies: &[ScriptBodyRange],
    mode: &Mode,
    diagnostics: &mut Vec<Diagnostic>,
)
    ensures
        final(diagnostics).deep_view() == old(diagnostics).deep_view() + script_findings_from(
            tree@,
            script_bodies@,
            *mode,
            0,
            None,
        ),
{
    let ghost start = diagnostics.deep_view();
    let n = tree.nodes.len();
    let mut cut: Option<usize> = None;
    let mut i: usize = 0;
    while i < n
        invariant
            n == tree@.len(),
            i <= n,
            start + script_findings_from(tree@, script_bodies@, *mode, 0, None)
                == diagnostics.deep_view() + script_findings_from(
                tree@,
                script_bodies@,
                *mode,
                i as int,
                cut,
            ),
        decreases n - i,
    {
        let ghost before = diagnostics.deep_view();
        let ghost old_cut = cut;
        let node = &tree.nodes[i];
        assert(tree@[i as int] == node@);
        let below_cut = match cut {
            Some(d) => node.depth > d,
            None => false,
        };
        if !below_cut {
            if node.is_named && matches_mode(tree, i, mode) && is_inside_script_body(
                node,
                script_bodies,
            ) {
                diagnostics.push(
                    Diagnostic {
                        rule_id: rule_id(mode),
                        message: message(node, mode),
                        severity: Severity::Error,
                        range: range_from_node(node),
                    },
                );
                cut = Some(node.depth);
            } else {
                cut = None;
            }
        }
        assert(before + script_findings_from(tree@, script_bodies@, *mode, i as int, old_cut)
            =~= diagnostics.deep_view() + script_findings_from(
            tree@,
            script_bodies@,
            *mode,
            i + 1,
            cut,
        ));
        i = i + 1;
    }
    assert(diagnostics.deep_view() + script_findings_from(
        tree@,
        script_bodies@,
        *mode,
        i as int,
        cut,
    ) =~= diagnostics.deep_view());
}

impl Rule for NoControlFlowInScript {
    open spec fn spec_id(&self) -> Seq<char> {
        LENIENT_RULE_ID@
    }

    open spec fn findings(&self, source: Seq<u8>, tree: Seq<NodeModel>) -> Seq<DiagnosticModel> {
        script_findings(Mode::Lenient, source, tree)
    }

    fn id(&self) -> (id: &'static str) {
        LENIENT_RULE_ID
    }

    fn check(&self, ctx: &LintContext<'_>, diagnostics: &mut Vec<Diagnostic>) {
        check_script_bodies(ctx, Mode::Lenient, diagnostics);
    }
}

impl Rule for NoSmartyInScript {
    open spec fn spec_id(&self) -> Seq<char> {
        STRICT_RULE_ID@
    }

    open spec fn findings(&self, source: Seq<u8>, tree: Seq<NodeModel>) -> Seq<DiagnosticModel> {
        script_findings(Mode::Strict, source, tree)
    }

    fn id(&self) -> (id: &'static str) {
        STRICT_RULE_ID
    }

    fn check(&self, ctx: &LintContext<'_>, diagnostics: &mut Vec<Diagnostic>) {
        check_script_bodies(ctx, Mode::Strict, diagnostics);
    }
}

} // verus!
