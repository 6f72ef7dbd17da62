use vstd::prelude::*;

use crate::diagnostic::{Diagnostic, DiagnosticModel, Range, Severity};
use crate::lint::html::{
    event_placed, event_range, events_from, fragment_fits, lemma_events_placed, tag_events_in, TagEvent,
    TagEventModel,
};
use crate::lint::smarty::{
    covered_by_control_flow_child, direct_fragment, direct_fragment_bytes, has_control_flow_parent,
    is_control_flow_parent,
};
use crate::lint::{LintContext, Rule};
use crate::parser::{NodeModel, SyntaxTree};
use crate::text::str_eq;
use vstd::string::StringSliceAdditionalSpecFns;

verus! {

/// The identifier of this rule.
pub const RULE_ID: &'static str = "smarty/balanced-html-in-control-flow";

/// Checks that the HTML written directly in each Smarty control-flow branch is balanced.
pub struct BalancedHtmlInControlFlow;

/// An opened tag that waits for its closing tag.
struct OpenTag {
    name: String,
    range: Range,
}

impl View for OpenTag {
    type V = (Seq<char>, Range);

    closed spec fn view(&self) -> (Seq<char>, Range) {
        (self.name@, self.range)
    }
}

impl DeepView for OpenTag {
    type V = (Seq<char>, Range);

    closed spec fn deep_view(&self) -> (Seq<char>, Range) {
        self@
    }
}

// ---------------------------------------------------------------------------
// Matching tags
// ---------------------------------------------------------------------------

/// HTML elements that never have a closing tag.
pub open spec fn void_element(name: Seq<char>) -> bool {
    ||| name == "area"@
    ||| name == "base"@
    ||| name == "br"@
    ||| name == "col"@
    ||| name == "embed"@
    ||| name == "hr"@
    ||| name == "img"@
    ||| name == "input"@
    ||| name == "link"@
    ||| name == "meta"@
    ||| name == "param"@
    ||| name == "source"@
    ||| name == "track"@
    ||| name == "wbr"@
}

fn is_void_element(name: &str) -> (res: bool)
    ensures
        res == void_element(name@),
{
    str_eq(name, "area") || str_eq(name, "base") || str_eq(name, "br") || str_eq(name, "col")
        || str_eq(name, "embed") || str_eq(name, "hr") || str_eq(name, "img") || str_eq(
        name,
        "input",
    ) || str_eq(name, "link") || str_eq(name, "meta") || str_eq(name, "param") || str_eq(
        name,
        "source",
    ) || str_eq(name, "track") || str_eq(name, "wbr")
}

/// The finding for a tag that is opened and never closed in its branch.
pub open spec fn unclosed_finding(tag: (Seq<char>, Range)) -> DiagnosticModel {
    DiagnosticModel {
        rule_id: RULE_ID@,
        message: "Opening <"@ + tag.0 + "> is not closed in this Smarty branch"@,
        severity: Severity::Error,
        range: tag.1,
    }
}

/// The finding for a closing tag that closes nothing opened in its branch.
pub open spec fn unmatched_close_finding(name: Seq<char>, range: Range) -> DiagnosticModel {
    DiagnosticModel {
        rule_id: RULE_ID@,
        message: "Closing </"@ + name + "> has no matching opening tag in this Smarty branch"@,
        severity: Severity::Error,
        range,
    }
}

/// The index of the topmost open tag with this name at or below index `k`.
pub open spec fn last_named(stack: Seq<(Seq<char>, Range)>, name: Seq<char>, k: int) -> Option<int>
    decreases k + 1,
{
    if k < 0 || k >= stack.len() {
        None
    } else if stack[k].0 == name {
        Some(k)
    } else {
        last_named(stack, name, k - 1)
    }
}

pub proof fn lemma_last_named(stack: Seq<(Seq<char>, Range)>, name: Seq<char>, k: int)
    requires
        k < stack.len(),
    ensures
        last_named(stack, name, k) matches Some(p) ==> {
            &&& 0 <= p <= k
            &&& stack[p].0 == name
            &&& forall|q: int| p < q <= k ==> #[trigger] stack[q].0 != name
        },
        last_named(stack, name, k) is None ==> forall|q: int|
            0 <= q <= k ==> #[trigger] stack[q].0 != name,
    decreases k + 1,
{
    if k >= 0 && stack[k].0 != name {
        lemma_last_named(stack, name, k - 1);
    }
}

/// The findings for `events`, given the tags `stack` that are open before them:
/// a closing tag closes the topmost open tag of its name and reports every tag
/// opened above it; a closing tag with no open tag of its name is reported; void
/// and self-closing tags open nothing; tags still open at the end are reported.
pub open spec fn validate_from(events: Seq<TagEventModel>, stack: Seq<(Seq<char>, Range)>) -> Seq<
    DiagnosticModel,
>
    decreases events.len(),
{
    if events.len() == 0 {
        stack.map_values(|tag: (Seq<char>, Range)| unclosed_finding(tag))
    } else {
        let rest = events.drop_first();
        match events[0] {
            TagEventModel::Open { name, range } => if void_element(name) {
                validate_from(rest, stack)
            } else {
                validate_from(rest, stack.push((name, range)))
            },
            TagEventModel::Close { name, range } => match last_named(
                stack,
                name,
                stack.len() - 1,
            ) {
                Some(idx) => stack.subrange(idx + 1, stack.len() as int).map_values(
                    |tag: (Seq<char>, Range)| unclosed_finding(tag),
                ) + validate_from(rest, stack.take(idx)),
                None => seq![unmatched_close_finding(name, range)] + validate_from(rest, stack),
            },
            TagEventModel::SelfClosing { .. } => validate_from(rest, stack),
        }
    }
}

/// The findings for the tags of one branch.
pub open spec fn validation_findings(events: Seq<TagEventModel>) -> Seq<DiagnosticModel> {
    validate_from(events, seq![])
}

fn unclosed_tag_diagnostic(tag: &OpenTag) -> (diagnostic: Diagnostic)
    ensures
        diagnostic@ == unclosed_finding(tag@),
{
    let mut message = String::from_str("Opening <");
    message.append(tag.name.as_str());
    message.append("> is not closed in this Smarty branch");
    Diagnostic { rule_id: RULE_ID, message, severity: Severity::Error, range: tag.range }
}

fn unmatched_close_diagnostic(name: &str, range: Range) -> (diagnostic: Diagnostic)
    ensures
        diagnostic@ == unmatched_close_finding(name@, range),
{
    let mut message = String::from_str("Closing </");
    message.append(name);
    message.append("> has no matching opening tag in this Smarty branch");
    Diagnostic { rule_id: RULE_ID, message, severity: Severity::Error, range }
}

/// The index of the topmost open tag named `name`.
fn find_open(stack: &Vec<OpenTag>, name: &str) -> (res: Option<usize>)
    ensures
        opt_index_of(res) == last_named(stack.deep_view(), name@, stack.deep_view().len() - 1),
        res matches Some(p) ==> p < stack@.len(),
{
    let ghost s = stack.deep_view();
    let mut k = stack.len();
    while k > 0
        invariant
            k <= stack@.len(),
            s == stack.deep_view(),
            last_named(s, name@, s.len() - 1) == last_named(s, name@, k - 1),
        decreases k,
    {
        if str_eq(stack[k - 1].name.as_str(), name) {
            return Some(k - 1);
        }
        k = k - 1;
    }
    None
}

/// An index as an optional mathematical integer.
pub open spec fn opt_index_of(o: Option<usize>) -> Option<int> {
    match o {
        Some(v) => Some(v as int),
        None => None,
    }
}

/// Appends to `diagnostics` the findings for the tags of one branch.
fn validate_events(events: Vec<TagEvent>, diagnostics: &mut Vec<Diagnostic>)
    ensures
        final(diagnostics).deep_view() == old(diagnostics).deep_view() + validation_findings(
            events.deep_view(),
        ),
{
    let ghost all = events.deep_view();
    let ghost start = diagnostics.deep_view();
    let mut stack: Vec<OpenTag> = Vec::new();
    let mut i: usize = 0;
    assert(all.skip(0) =~= all);
    assert(stack.deep_view() =~= seq![]);
    assert(start + validate_from(all, seq![]) =~= diagnostics.deep_view() + validate_from(
        all.skip(0),
        stack.deep_view(),
    ));
    while i < events.len()
        invariant
            all == events.deep_view(),
            i <= all.len(),
            start + validate_from(all, seq![]) == diagnostics.deep_view() + validate_from(
                all.skip(i as int),
                stack.deep_view(),
            ),
        decreases events.len() - i,
    {
        let ghost before = diagnostics.deep_view();
        let ghost old_stack = stack.deep_view();
        let ghost step = validate_from(all.skip(i as int), old_stack);
        assert(all.skip(i as int).drop_first() =~= all.skip(i + 1));
        assert(all.skip(i as int)[0] == events[i as int].deep_view());
        match &events[i] {
            TagEvent::Open { name, range } => {
                if !is_void_element(name.as_str()) {
                    stack.push(OpenTag { name: name.clone(), range: *range });
                    assert(stack.deep_view() =~= old_stack.push((name@, *range)));
                }
                assert(before + step =~= diagnostics.deep_view() + validate_from(
                    all.skip(i + 1),
                    stack.deep_view(),
                ));
            },
            TagEvent::Close { name, range } => {
                let found = find_open(&stack, name.as_str());
                proof {
                    lemma_last_named(old_stack, name@, old_stack.len() - 1);
                }
                match found {
                    Some(index) => {
                        let ghost drained = old_stack.subrange(index + 1, old_stack.len() as int).map_values(
                            |tag: (Seq<char>, Range)| unclosed_finding(tag),
                        );
                        let height = stack.len();
                        assert(index < height);
                        let mut m = index + 1;
                        while m < stack.len()
                            invariant
                                index < m <= stack@.len(),
                                old_stack == stack.deep_view(),
                                old_stack.len() == stack@.len(),
                                drained == old_stack.subrange(index + 1, old_stack.len() as int).map_values(
                                    |tag: (Seq<char>, Range)| unclosed_finding(tag),
                                ),
                                diagnostics.deep_view() == before + drained.take(m - index - 1),
                            decreases stack.len() - m,
                        {
                            let ghost so_far = diagnostics.deep_view();
                            diagnostics.push(unclosed_tag_diagnostic(&stack[m]));
                            assert(diagnostics.deep_view() =~= so_far.push(
                                unclosed_finding(old_stack[m as int]),
                            ));
                            assert(drained.take(m + 1 - index - 1) =~= drained.take(
                                m - index - 1,
                            ).push(unclosed_finding(old_stack[m as int])));
                            m = m + 1;
                        }
                        assert(drained.take(m - index - 1) =~= drained);
                        stack.truncate(index);
                        assert(stack.deep_view() =~= old_stack.take(index as int));
                        assert(before + step =~= diagnostics.deep_view() + validate_from(
                            all.skip(i + 1),
                            stack.deep_view(),
                        ));
                    },
                    None => {
                        diagnostics.push(unmatched_close_diagnostic(name.as_str(), *range));
                        assert(diagnostics.deep_view() =~= before + seq![
                            unmatched_close_finding(name@, *range),
                        ]);
                        assert(before + step =~= diagnostics.deep_view() + validate_from(
                            all.skip(i + 1),
                            stack.deep_view(),
                        ));
                    },
                }
            },
            TagEvent::SelfClosing { .. } => {
                assert(before + step =~= diagnostics.deep_view() + validate_from(
                    all.skip(i + 1),
                    stack.deep_view(),
                ));
            },
        }
        i = i + 1;
    }
    let ghost rest_stack = stack.deep_view();
    let ghost remaining = rest_stack.map_values(|tag: (Seq<char>, Range)| unclosed_finding(tag));
    assert(all.skip(i as int) =~= Seq::<TagEventModel>::empty());
    let ghost before = diagnostics.deep_view();
    let mut m: usize = 0;
    while m < stack.len()
        invariant
            m <= stack@.len(),
            rest_stack == stack.deep_view(),
            rest_stack.len() == stack@.len(),
            remaining == rest_stack.map_values(|tag: (Seq<char>, Range)| unclosed_finding(tag)),
            diagnostics.deep_view() == before + remaining.take(m as int),
        decreases stack.len() - m,
    {
        let ghost so_far = diagnostics.deep_view();
        diagnostics.push(unclosed_tag_diagnostic(&stack[m]));
        assert(diagnostics.deep_view() =~= so_far.push(unclosed_finding(rest_stack[m as int])));
        assert(remaining.take(m + 1) =~= remaining.take(m as int).push(
            unclosed_finding(rest_stack[m as int]),
        ));
        m = m + 1;
    }
    assert(remaining.take(m as int) =~= remaining);
}

/// The HTML void elements (area, base, br, col, embed, hr, img, input, link,
/// meta, param, source, track, wbr) open nothing: an opening tag with one of
/// these names changes neither the open tags nor the findings.
pub proof fn lemma_void_elements_open_nothing(
    name: Seq<char>,
    range: Range,
    rest: Seq<TagEventModel>,
    stack: Seq<(Seq<char>, Range)>,
)
    requires
        ({
            ||| name == "area"@
            ||| name == "base"@
            ||| name == "br"@
            ||| name == "col"@
            ||| name == "embed"@
            ||| name == "hr"@
            ||| name == "img"@
            ||| name == "input"@
            ||| name == "link"@
            ||| name == "meta"@
            ||| name == "param"@
            ||| name == "source"@
            ||| name == "track"@
            ||| name == "wbr"@
        }),
    ensures
        validate_from(seq![TagEventModel::Open { name, range }] + rest, stack) == validate_from(
            rest,
            stack,
        ),
{
    let events = seq![TagEventModel::Open { name, range }] + rest;
    assert(events.drop_first() =~= rest);
}

/// Any other opening tag must be closed: closed right away by a tag of the same
/// name, it leaves no finding and the open tags as they were; left open at the
/// end of the branch, it is reported.
pub proof fn lemma_other_tags_must_close(
    name: Seq<char>,
    range: Range,
    close_range: Range,
    rest: Seq<TagEventModel>,
    stack: Seq<(Seq<char>, Range)>,
)
    requires
        !({
            ||| name == "area"@
            ||| name == "base"@
            ||| name == "br"@
            ||| name == "col"@
            ||| name == "embed"@
            ||| name == "hr"@
            ||| name == "img"@
            ||| name == "input"@
            ||| name == "link"@
            ||| name == "meta"@
            ||| name == "param"@
            ||| name == "source"@
            ||| name == "track"@
            ||| name == "wbr"@
        }),
    ensures
        validate_from(
            seq![
                TagEventModel::Open { name, range },
                TagEventModel::Close { name, range: close_range },
            ] + rest,
            stack,
        ) == validate_from(rest, stack),
        validate_from(seq![TagEventModel::Open { name, range }], stack) == stack.push(
            (name, range),
        ).map_values(|tag: (Seq<char>, Range)| unclosed_finding(tag)),
{
    let events = seq![
        TagEventModel::Open { name, range },
        TagEventModel::Close { name, range: close_range },
    ] + rest;
    let pushed = stack.push((name, range));
    let after = events.drop_first();
    assert(after[0] == TagEventModel::Close { name, range: close_range });
    assert(after.drop_first() =~= rest);
    assert(last_named(pushed, name, pushed.len() - 1) == Some(stack.len() as int));
    assert(pushed.take(stack.len() as int) =~= stack);
    assert(pushed.subrange(stack.len() as int + 1, pushed.len() as int).map_values(
        |tag: (Seq<char>, Range)| unclosed_finding(tag),
    ) =~= Seq::<DiagnosticModel>::empty());
    assert(!void_element(name));
    assert(events[0] == TagEventModel::Open { name, range });
    assert(validate_from(events, stack) == validate_from(after, pushed));
    assert(validate_from(after, pushed) == Seq::<DiagnosticModel>::empty() + validate_from(
        rest,
        stack,
    ));
    assert(Seq::<DiagnosticModel>::empty() + validate_from(rest, stack) =~= validate_from(
        rest,
        stack,
    ));
    let single = seq![TagEventModel::Open { name, range }];
    assert(single.drop_first() =~= Seq::<TagEventModel>::empty());
    assert(validate_from(single, stack) == validate_from(Seq::<TagEventModel>::empty(), pushed));
}

/// The tags are balanced, given the names `open` of the tags opened before
/// them: every closing tag closes the most recently opened tag that is still
/// open, void and self-closing tags open nothing, and no tag is left open.
pub open spec fn balanced_from(events: Seq<TagEventModel>, open: Seq<Seq<char>>) -> bool
    decreases events.len(),
{
    if events.len() == 0 {
        open.len() == 0
    } else {
        let rest = events.drop_first();
        match events[0] {
            TagEventModel::Open { name, .. } => if void_element(name) {
                balanced_from(rest, open)
            } else {
                balanced_from(rest, open.push(name))
            },
            TagEventModel::Close { name, .. } => open.len() > 0 && open.last() == name
                && balanced_from(rest, open.drop_last()),
            TagEventModel::SelfClosing { .. } => balanced_from(rest, open),
        }
    }
}

/// The tags of a branch are balanced.
pub open spec fn balanced(events: Seq<TagEventModel>) -> bool {
    balanced_from(events, seq![])
}

/// The names of the open tags.
pub open spec fn open_names(stack: Seq<(Seq<char>, Range)>) -> Seq<Seq<char>> {
    stack.map_values(|tag: (Seq<char>, Range)| tag.0)
}

proof fn lemma_quiet_iff_balanced_from(events: Seq<TagEventModel>, stack: Seq<(Seq<char>, Range)>)
    ensures
        validate_from(events, stack).len() == 0 <==> balanced_from(events, open_names(stack)),
    decreases events.len(),
{
    if events.len() > 0 {
        let rest = events.drop_first();
        match events[0] {
            TagEventModel::Open { name, range } => {
                lemma_quiet_iff_balanced_from(rest, stack);
                lemma_quiet_iff_balanced_from(rest, stack.push((name, range)));
                assert(open_names(stack.push((name, range))) =~= open_names(stack).push(name));
            },
            TagEventModel::Close { name, range } => {
                lemma_last_named(stack, name, stack.len() - 1);
                lemma_quiet_iff_balanced_from(rest, stack);
                match last_named(stack, name, stack.len() - 1) {
                    Some(idx) => {
                        lemma_quiet_iff_balanced_from(rest, stack.take(idx));
                        if idx == stack.len() - 1 {
                            assert(open_names(stack.take(idx)) =~= open_names(stack).drop_last());
                        } else {
                            assert(stack[stack.len() - 1].0 != name);
                            assert(stack.subrange(idx + 1, stack.len() as int).map_values(
                                |tag: (Seq<char>, Range)| unclosed_finding(tag),
                            ).len() > 0);
                        }
                    },
                    None => {
                        if stack.len() > 0 {
                            assert(stack[stack.len() - 1].0 != name);
                        }
                    },
                }
            },
            TagEventModel::SelfClosing { .. } => {
                lemma_quiet_iff_balanced_from(rest, stack);
            },
        }
    }
}

/// A branch gets no finding exactly when its tags are balanced: every closing
/// tag closes the most recently opened tag that is still open, and no tag is
/// left open.
pub proof fn lemma_quiet_iff_balanced(events: Seq<TagEventModel>)
    ensures
        validation_findings(events).len() == 0 <==> balanced(events),
{
    lemma_quiet_iff_balanced_from(events, seq![]);
    assert(open_names(seq![]) =~= Seq::<Seq<char>>::empty());
}

/// Every finding of a branch is an error of this rule.
pub proof fn lemma_findings_are_errors_of_rule(
    events: Seq<TagEventModel>,
    stack: Seq<(Seq<char>, Range)>,
)
    ensures
        forall|k: int|
            0 <= k < validate_from(events, stack).len() ==> #[trigger] validate_from(
                events,
                stack,
            )[k].rule_id == RULE_ID@ && validate_from(events, stack)[k].severity
                == Severity::Error,
    decreases events.len(),
{
    if events.len() > 0 {
        let rest = events.drop_first();
        match events[0] {
            TagEventModel::Open { name, range } => {
                lemma_findings_are_errors_of_rule(rest, stack);
                lemma_findings_are_errors_of_rule(rest, stack.push((name, range)));
            },
            TagEventModel::Close { name, range } => {
                lemma_findings_are_errors_of_rule(rest, stack);
                match last_named(stack, name, stack.len() - 1) {
                    Some(idx) => {
                        lemma_findings_are_errors_of_rule(rest, stack.take(idx));
                    },
                    None => {},
                }
            },
            TagEventModel::SelfClosing { .. } => {
                lemma_findings_are_errors_of_rule(rest, stack);
            },
        }
    }
}

// ---------------------------------------------------------------------------
// Branches of the syntax tree
// ---------------------------------------------------------------------------

/// The node lies within a text of `len` bytes, and its start position is no
/// further than its start byte, as holds of every node that a parser reports.
pub open spec fn sane_node(node: NodeModel, len: nat) -> bool {
    &&& node.start_byte <= node.end_byte <= len
    &&& node.start_position.row <= node.start_byte
    &&& node.start_position.column <= node.start_byte
}

/// Node `i` is the body of a Smarty control-flow branch.
pub open spec fn checked_body(tree: Seq<NodeModel>, source: Seq<u8>, i: int) -> bool {
    &&& tree[i].is_named
    &&& tree[i].kind == "body"@
    &&& has_control_flow_parent(tree, i)
    &&& sane_node(tree[i], source.len())
}

/// The findings for the direct HTML of branch body `i`.
pub open spec fn body_findings(tree: Seq<NodeModel>, source: Seq<u8>, i: int) -> Seq<
    DiagnosticModel,
> {
    validation_findings(body_events(tree, source, i))
}

/// The findings for the branch bodies among nodes `i..` of `tree`, in tree order.
pub open spec fn balanced_findings_from(tree: Seq<NodeModel>, source: Seq<u8>, i: int) -> Seq<
    DiagnosticModel,
>
    decreases tree.len() - i,
{
    if i < 0 || i >= tree.len() {
        seq![]
    } else {
        (if checked_body(tree, source, i) {
            body_findings(tree, source, i)
        } else {
            seq![]
        }) + balanced_findings_from(tree, source, i + 1)
    }
}

/// What this rule finds in a template.
pub open spec fn balanced_findings(source: Seq<u8>, tree: Seq<NodeModel>) -> Seq<DiagnosticModel> {
    balanced_findings_from(tree, source, 0)
}

/// The tags that the direct HTML of branch body `i` holds.
pub open spec fn body_events(tree: Seq<NodeModel>, source: Seq<u8>, i: int) -> Seq<TagEventModel> {
    events_from(direct_fragment(tree, source, i), 0, tree[i].start_byte, tree[i].start_position)
}

proof fn lemma_quiet_from(tree: Seq<NodeModel>, source: Seq<u8>, i: int)
    requires
        0 <= i,
    ensures
        balanced_findings_from(tree, source, i).len() == 0 <==> forall|j: int|
            i <= j < tree.len() && checked_body(tree, source, j) ==> #[trigger] balanced(
                body_events(tree, source, j),
            ),
    decreases tree.len() - i,
{
    if i < tree.len() {
        lemma_quiet_from(tree, source, i + 1);
        lemma_quiet_iff_balanced(body_events(tree, source, i));
        if balanced_findings_from(tree, source, i).len() == 0 {
            assert forall|j: int|
                i <= j < tree.len() && checked_body(tree, source, j) implies #[trigger] balanced(
                body_events(tree, source, j),
            ) by {
                if j > i {
                }
            }
        }
    }
}

/// The rule reports nothing for a template exactly when the direct HTML of
/// every Smarty control-flow branch body is balanced.
pub proof fn lemma_quiet_iff_every_branch_balanced(source: Seq<u8>, tree: Seq<NodeModel>)
    ensures
        balanced_findings(source, tree).len() == 0 <==> forall|j: int|
            0 <= j < tree.len() && checked_body(tree, source, j) ==> #[trigger] balanced(
                body_events(tree, source, j),
            ),
{
    lemma_quiet_from(tree, source, 0);
}

/// Every finding of the rule, over the branch bodies among nodes `i..`, is an
/// error of this rule.
pub proof fn lemma_balanced_findings_are_errors_of_rule(tree: Seq<NodeModel>, source: Seq<u8>, i: int)
    ensures
        forall|k: int|
            0 <= k < balanced_findings_from(tree, source, i).len() ==> #[trigger] balanced_findings_from(
                tree,
                source,
                i,
            )[k].rule_id == RULE_ID@ && balanced_findings_from(tree, source, i)[k].severity
                == Severity::Error,
    decreases tree.len() - i,
{
    if 0 <= i < tree.len() {
        lemma_balanced_findings_are_errors_of_rule(tree, source, i + 1);
        lemma_findings_are_errors_of_rule(body_events(tree, source, i), seq![]);
        let head = if checked_body(tree, source, i) {
            body_findings(tree, source, i)
        } else {
            seq![]
        };
        let rest = balanced_findings_from(tree, source, i + 1);
        let all = balanced_findings_from(tree, source, i);
        assert(all == head + rest);
        assert forall|k: int| 0 <= k < all.len() implies #[trigger] all[k].rule_id == RULE_ID@
            && all[k].severity == Severity::Error by {
            if k < head.len() {
                assert(all[k] == head[k]);
            } else {
                assert(all[k] == rest[k - head.len()]);
            }
        }
    }
}

/// Every finding carries the range of one of the tags or of a tag left open
/// before them: a property that all those ranges have, every finding's range has.
proof fn lemma_finding_ranges_from_events(
    events: Seq<TagEventModel>,
    stack: Seq<(Seq<char>, Range)>,
    p: spec_fn(Range) -> bool,
)
    requires
        forall|j: int| 0 <= j < events.len() ==> p(event_range(#[trigger] events[j])),
        forall|m: int| 0 <= m < stack.len() ==> p(#[trigger] stack[m].1),
    ensures
        forall|k: int|
            0 <= k < validate_from(events, stack).len() ==> p(
                #[trigger] validate_from(events, stack)[k].range,
            ),
    decreases events.len(),
{
    let all = validate_from(events, stack);
    if events.len() == 0 {
        assert forall|k: int| 0 <= k < all.len() implies p(#[trigger] all[k].range) by {
            assert(all[k].range == stack[k].1);
        }
    } else {
        let rest = events.drop_first();
        assert forall|j: int| 0 <= j < rest.len() implies p(event_range(#[trigger] rest[j])) by {
            assert(rest[j] == events[j + 1]);
        }
        assert(p(event_range(events[0])));
        match events[0] {
            TagEventModel::Open { name, range } => {
                if void_element(name) {
                    lemma_finding_ranges_from_events(rest, stack, p);
                } else {
                    let next = stack.push((name, range));
                    assert forall|m: int| 0 <= m < next.len() implies p(#[trigger] next[m].1) by {
                        if m < stack.len() {
                            assert(next[m] == stack[m]);
                        }
                    }
                    lemma_finding_ranges_from_events(rest, next, p);
                }
            },
            TagEventModel::Close { name, range } => {
                match last_named(stack, name, stack.len() - 1) {
                    Some(idx) => {
                        lemma_last_named(stack, name, stack.len() - 1);
                        let next = stack.take(idx);
                        let drained = stack.subrange(idx + 1, stack.len() as int).map_values(
                            |tag: (Seq<char>, Range)| unclosed_finding(tag),
                        );
                        assert forall|m: int| 0 <= m < next.len() implies p(#[trigger] next[m].1) by {
                            assert(next[m] == stack[m]);
                        }
                        lemma_finding_ranges_from_events(rest, next, p);
                        let tail = validate_from(rest, next);
                        assert(all == drained + tail);
                        assert forall|k: int| 0 <= k < all.len() implies p(#[trigger] all[k].range) by {
                            if k < drained.len() {
                                assert(all[k].range == stack[idx + 1 + k].1);
                            } else {
                                assert(all[k] == tail[k - drained.len()]);
                            }
                        }
                    },
                    None => {
                        lemma_finding_ranges_from_events(rest, stack, p);
                        let tail = validate_from(rest, stack);
                        assert(all == seq![unmatched_close_finding(name, range)] + tail);
                        assert forall|k: int| 0 <= k < all.len() implies p(#[trigger] all[k].range) by {
                            if k > 0 {
                                assert(all[k] == tail[k - 1]);
                            }
                        }
                    },
                }
            },
            TagEventModel::SelfClosing { .. } => {
                lemma_finding_ranges_from_events(rest, stack, p);
            },
        }
    }
}

/// Every finding of a branch carries the range of one of the branch's tags.
pub proof fn lemma_findings_at_event_ranges(events: Seq<TagEventModel>)
    ensures
        forall|k: int|
            0 <= k < validation_findings(events).len() ==> exists|j: int|
                0 <= j < events.len() && #[trigger] validation_findings(events)[k].range
                    == event_range(#[trigger] events[j]),
{
    let p = |r: Range| exists|j: int| 0 <= j < events.len() && r == event_range(#[trigger] events[j]);
    assert forall|j: int| 0 <= j < events.len() implies p(event_range(#[trigger] events[j])) by {
        assert(events[j] == events[j]);
    }
    lemma_finding_ranges_from_events(events, seq![], p);
    assert forall|k: int| 0 <= k < validation_findings(events).len() implies exists|j: int|
        0 <= j < events.len() && #[trigger] validation_findings(events)[k].range == event_range(
            #[trigger] events[j],
        ) by {
        assert(p(validation_findings(events)[k].range));
    }
}

/// The template's bytes at a finding's range: it lies within branch body `i`
/// and runs from a `<` to a `>`.
pub open spec fn points_at_tag(tree: Seq<NodeModel>, source: Seq<u8>, i: int, r: Range) -> bool {
    &&& tree[i].start_byte <= r.start_byte < r.end_byte <= tree[i].end_byte
    &&& source[r.start_byte as int] == 60
    &&& source[r.end_byte - 1] == 62
}

/// Every finding for branch body `i` points at a tag written directly in that
/// body: its byte range lies within the body and runs from a `<` to a `>` of
/// the template.
pub proof fn lemma_body_findings_point_at_tags(tree: Seq<NodeModel>, source: Seq<u8>, i: int)
    requires
        0 <= i < tree.len(),
        checked_body(tree, source, i),
    ensures
        forall|k: int|
            0 <= k < body_findings(tree, source, i).len() ==> points_at_tag(
                tree,
                source,
                i,
                #[trigger] body_findings(tree, source, i)[k].range,
            ),
{
    let s = tree[i].start_byte;
    let fragment = direct_fragment(tree, source, i);
    let events = body_events(tree, source, i);
    let p = |r: Range| points_at_tag(tree, source, i, r);
    lemma_events_placed(fragment, 0, s, tree[i].start_position);
    assert forall|j: int| 0 <= j < events.len() implies p(event_range(#[trigger] events[j])) by {
        assert(event_placed(fragment, 0, s, events[j]));
        let r = event_range(events[j]);
        let a = r.start_byte - s;
        let b = r.end_byte - s - 1;
        if covered_by_control_flow_child(tree, i, s + a) {
            assert(fragment[a] == 32);
        }
        if covered_by_control_flow_child(tree, i, s + b) {
            assert(fragment[b] == 32);
        }
    }
    lemma_finding_ranges_from_events(events, seq![], p);
}

fn is_checked_body(source: &[u8], tree: &SyntaxTree, i: usize) -> (res: bool)
    requires
        i < tree@.len(),
    ensures
        res == checked_body(tree@, source@, i as int),
{
    let node = &tree.nodes[i];
    assert(tree@[i as int] == node@);
    node.is_named && str_eq(node.kind.as_str(), "body") && node.start_byte <= node.end_byte
        && node.end_byte <= source.len() && node.start_position.row <= node.start_byte
        && node.start_position.column <= node.start_byte && is_control_flow_parent(tree, i)
}

/// Appends the findings for the direct HTML of branch body `body`.
fn check_body(source: &[u8], tree: &SyntaxTree, body: usize, diagnostics: &mut Vec<Diagnostic>)
    requires
        body < tree@.len(),
        checked_body(tree@, source@, body as int),
    ensures
        final(diagnostics).deep_view() == old(diagnostics).deep_view() + body_findings(
            tree@,
            source@,
            body as int,
        ),
{
    let fragment = direct_fragment_bytes(source, tree, body);
    let node = &tree.nodes[body];
    assert(tree@[body as int] == node@);
    let len = source.len();
    assert(fragment_fits(fragment@.len(), node.start_byte, node.start_position));
    let events = tag_events_in(fragment.as_slice(), node.start_byte, node.start_position);
    validate_events(events, diagnostics);
}

/// Appends the findings for every branch body of `tree`, in tree order.
fn check_node(source: &[u8], tree: &SyntaxTree, diagnostics: &mut Vec<Diagnostic>)
    ensures
        final(diagnostics).deep_view() == old(diagnostics).deep_view() + balanced_findings(
            source@,
            tree@,
        ),
{
    let ghost start = diagnostics.deep_view();
    let n = tree.nodes.len();
    let mut i: usize = 0;
    while i < n
        invariant
            n == tree@.len(),
            i <= n,
            start + balanced_findings_from(tree@, source@, 0) == diagnostics.deep_view()
                + balanced_findings_from(tree@, source@, i as int),
        decreases n - i,
    {
        let ghost before = diagnostics.deep_view();
        if is_checked_body(source, tree, i) {
            check_body(source, tree, i, diagnostics);
        }
        assert(before + balanced_findings_from(tree@, source@, i as int) =~= diagnostics.deep_view()
            + balanced_findings_from(tree@, source@, i + 1));
        i = i + 1;
    }
    assert(diagnostics.deep_view() + balanced_findings_from(tree@, source@, i as int)
        =~= diagnostics.deep_view());
}

impl Rule for BalancedHtmlInControlFlow {
    open spec fn spec_id(&self) -> Seq<char> {
        RULE_ID@
    }

    open spec fn findings(&self, source: Seq<u8>, tree: Seq<NodeModel>) -> Seq<DiagnosticModel> {
        balanced_findings(source, tree)
    }

    fn id(&self) -> (id: &'static str) {
        RULE_ID
    }

    fn check(&self, ctx: &LintContext<'_>, diagnostics: &mut Vec<Diagnostic>) {
        check_node(ctx.source.as_bytes(), &ctx.smarty_tree, diagnostics);
    }
}

} // verus!
