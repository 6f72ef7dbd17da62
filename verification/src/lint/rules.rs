pub mod balanced_html_in_control_flow;
pub mod no_smarty_in_script;

use vstd::prelude::*;

use crate::config::Config;
use crate::diagnostic::{Diagnostic, DiagnosticModel};
use crate::lint::{LintContext, Rule};
use crate::parser::NodeModel;
use crate::lint::html::script_ranges_from;
use vstd::string::StringSliceAdditionalSpecFns;
use crate::text::{
    join, join_strings, lemma_text_less_irreflexive,
    lemma_strictly_sorted_unique, lemma_text_less_total, lemma_text_less_transitive, str_eq, str_less, strictly_sorted,
    string_views, text_less,
};

pub use balanced_html_in_control_flow::BalancedHtmlInControlFlow;
pub use no_smarty_in_script::{NoControlFlowInScript, NoSmartyInScript};

use balanced_html_in_control_flow::{balanced_findings, RULE_ID as BALANCED_RULE_ID};
use no_smarty_in_script::{script_findings, Mode, LENIENT_RULE_ID, STRICT_RULE_ID};

verus! {

/// The rules that the linter knows, in the order in which they run.
#[derive(Debug, Clone, Copy, PartialEq, Eq, Structural)]
pub enum RuleKind {
    BalancedHtmlInControlFlow,
    NoControlFlowInScript,
    NoSmartyInScript,
}

/// The identifier of a rule.
pub open spec fn kind_id(kind: RuleKind) -> Seq<char> {
    match kind {
        RuleKind::BalancedHtmlInControlFlow => BALANCED_RULE_ID@,
        RuleKind::NoControlFlowInScript => LENIENT_RULE_ID@,
        RuleKind::NoSmartyInScript => STRICT_RULE_ID@,
    }
}

/// Whether a rule runs when the configuration says nothing of it.
pub open spec fn kind_default(kind: RuleKind) -> bool {
    match kind {
        RuleKind::BalancedHtmlInControlFlow => true,
        RuleKind::NoControlFlowInScript => true,
        RuleKind::NoSmartyInScript => false,
    }
}

/// All rules, in the order in which they run.
pub open spec fn registry() -> Seq<RuleKind> {
    seq![
        RuleKind::BalancedHtmlInControlFlow,
        RuleKind::NoControlFlowInScript,
        RuleKind::NoSmartyInScript,
    ]
}

/// `id` is the identifier of a known rule.
pub open spec fn known_rule_id(id: Seq<char>) -> bool {
    id == kind_id(RuleKind::BalancedHtmlInControlFlow) || id == kind_id(
        RuleKind::NoControlFlowInScript,
    ) || id == kind_id(RuleKind::NoSmartyInScript)
}

/// Whether `kind` runs under the switches `overrides`.
pub open spec fn rule_enabled(overrides: Map<Seq<char>, bool>, kind: RuleKind) -> bool {
    if overrides.contains_key(kind_id(kind)) {
        overrides[kind_id(kind)]
    } else {
        kind_default(kind)
    }
}

/// The rules of `rules` that run under `overrides`, in order.
pub open spec fn enabled_from(overrides: Map<Seq<char>, bool>, rules: Seq<RuleKind>) -> Seq<
    RuleKind,
>
    decreases rules.len(),
{
    if rules.len() == 0 {
        seq![]
    } else {
        (if rule_enabled(overrides, rules[0]) {
            seq![rules[0]]
        } else {
            seq![]
        }) + enabled_from(overrides, rules.drop_first())
    }
}

/// The rules that run under `overrides`, in registry order.
pub open spec fn enabled_rules(overrides: Map<Seq<char>, bool>) -> Seq<RuleKind> {
    enabled_from(overrides, registry())
}

/// `id` is switched by `overrides` but names no rule.
pub open spec fn unknown_rule_id(overrides: Map<Seq<char>, bool>, id: Seq<char>) -> bool {
    overrides.contains_key(id) && !known_rule_id(id)
}

/// `ids` lists, in increasing order and once each, the unknown identifiers of `overrides`.
pub open spec fn lists_unknown_ids(overrides: Map<Seq<char>, bool>, ids: Seq<Seq<char>>) -> bool {
    &&& strictly_sorted(ids)
    &&& forall|id: Seq<char>| #[trigger] ids.contains(id) <==> unknown_rule_id(overrides, id)
}

impl RuleKind {
    /// Whether the rule runs when the configuration says nothing of it.
    pub fn default_enabled(&self) -> (enabled: bool)
        ensures
            enabled == kind_default(*self),
    {
        match self {
            RuleKind::BalancedHtmlInControlFlow => true,
            RuleKind::NoControlFlowInScript => true,
            RuleKind::NoSmartyInScript => false,
        }
    }
}

impl Rule for RuleKind {
    open spec fn spec_id(&self) -> Seq<char> {
        kind_id(*self)
    }

    open spec fn findings(&self, source: Seq<u8>, tree: Seq<NodeModel>) -> Seq<DiagnosticModel> {
        match *self {
            RuleKind::BalancedHtmlInControlFlow => balanced_findings(source, tree),
            RuleKind::NoControlFlowInScript => script_findings(Mode::Lenient, source, tree),
            RuleKind::NoSmartyInScript => script_findings(Mode::Strict, source, tree),
        }
    }

    fn id(&self) -> (id: &'static str) {
        match self {
            RuleKind::BalancedHtmlInControlFlow => BALANCED_RULE_ID,
            RuleKind::NoControlFlowInScript => LENIENT_RULE_ID,
            RuleKind::NoSmartyInScript => STRICT_RULE_ID,
        }
    }

    fn check(&self, ctx: &LintContext<'_>, diagnostics: &mut Vec<Diagnostic>) {
        match self {
            RuleKind::BalancedHtmlInControlFlow => BalancedHtmlInControlFlow.check(ctx, diagnostics),
            RuleKind::NoControlFlowInScript => NoControlFlowInScript.check(ctx, diagnostics),
            RuleKind::NoSmartyInScript => NoSmartyInScript.check(ctx, diagnostics),
        }
    }
}

/// Every finding of a rule carries that rule's identifier.
pub proof fn lemma_findings_carry_rule_id(kind: RuleKind, source: Seq<u8>, tree: Seq<NodeModel>)
    ensures
        forall|k: int|
            0 <= k < kind.findings(source, tree).len() ==> (#[trigger] kind.findings(
                source,
                tree,
            )[k]).rule_id == kind_id(kind),
{
    match kind {
        RuleKind::BalancedHtmlInControlFlow => {
            balanced_html_in_control_flow::lemma_balanced_findings_are_errors_of_rule(
                tree,
                source,
                0,
            );
        },
        RuleKind::NoControlFlowInScript => {
            no_smarty_in_script::lemma_findings_inside_script_bodies(
                tree,
                script_ranges_from(source, 0),
                Mode::Lenient,
                0,
                None,
            );
        },
        RuleKind::NoSmartyInScript => {
            no_smarty_in_script::lemma_findings_inside_script_bodies(
                tree,
                script_ranges_from(source, 0),
                Mode::Strict,
                0,
                None,
            );
        },
    }
}

/// Every rule that `enabled_from` keeps is switched on.
pub proof fn lemma_enabled_from_enabled(overrides: Map<Seq<char>, bool>, rules: Seq<RuleKind>)
    ensures
        forall|j: int|
            0 <= j < enabled_from(overrides, rules).len() ==> rule_enabled(
                overrides,
                #[trigger] enabled_from(overrides, rules)[j],
            ),
    decreases rules.len(),
{
    if rules.len() > 0 {
        lemma_enabled_from_enabled(overrides, rules.drop_first());
        let head = if rule_enabled(overrides, rules[0]) {
            seq![rules[0]]
        } else {
            seq![]
        };
        let rest = enabled_from(overrides, rules.drop_first());
        let all = enabled_from(overrides, rules);
        assert(all == head + rest);
        assert forall|j: int| 0 <= j < all.len() implies rule_enabled(overrides, #[trigger] all[j]) by {
            if j >= head.len() {
                assert(all[j] == rest[j - head.len()]);
            }
        }
    }
}

/// All rules, in the order in which they run.
fn rule_registry() -> (rules: Vec<RuleKind>)
    ensures
        rules@ == registry(),
{
    let mut rules = Vec::new();
    rules.push(RuleKind::BalancedHtmlInControlFlow);
    rules.push(RuleKind::NoControlFlowInScript);
    rules.push(RuleKind::NoSmartyInScript);
    assert(rules@ =~= registry());
    rules
}

/// The rules that run under `overrides`, walking the registry.
fn select_rules(config: &Config) -> (rules: Vec<RuleKind>)
    ensures
        rules@ == enabled_rules(config.overrides_view()),
{
    let all = rule_registry();
    let ghost o = config.overrides_view();
    let mut rules: Vec<RuleKind> = Vec::new();
    let mut i: usize = 0;
    assert(all@.skip(0) =~= all@);
    while i < all.len()
        invariant
            all@ == registry(),
            o == config.overrides_view(),
            i <= all@.len(),
            rules@ + enabled_from(o, all@.skip(i as int)) == enabled_rules(o),
        decreases all.len() - i,
    {
        let kind = all[i];
        let ghost before = rules@;
        assert(all@.skip(i as int).drop_first() =~= all@.skip(i + 1));
        if config.is_rule_enabled(kind.id(), kind.default_enabled()) {
            rules.push(kind);
        }
        assert(before + enabled_from(o, all@.skip(i as int)) =~= rules@ + enabled_from(
            o,
            all@.skip(i + 1),
        ));
        i = i + 1;
    }
    assert(rules@ + enabled_from(o, all@.skip(i as int)) =~= rules@);
    rules
}

/// Without switches, the balanced-HTML rule and then the rule against control
/// flow in scripts run; the rule against any Smarty in scripts does not.
pub proof fn lemma_default_rule_set()
    ensures
        enabled_rules(Map::empty()) == seq![
            RuleKind::BalancedHtmlInControlFlow,
            RuleKind::NoControlFlowInScript,
        ],
{
    let m = Map::<Seq<char>, bool>::empty();
    let s3 = seq![RuleKind::NoSmartyInScript];
    let s2 = seq![RuleKind::NoControlFlowInScript, RuleKind::NoSmartyInScript];
    let s1 = registry();
    assert(s3.drop_first() =~= Seq::<RuleKind>::empty());
    assert(enabled_from(m, s3.drop_first()) == Seq::<RuleKind>::empty());
    assert(!rule_enabled(m, RuleKind::NoSmartyInScript));
    assert(enabled_from(m, s3) =~= Seq::<RuleKind>::empty());
    assert(s2.drop_first() =~= s3);
    assert(rule_enabled(m, RuleKind::NoControlFlowInScript));
    assert(enabled_from(m, s2) =~= seq![RuleKind::NoControlFlowInScript]);
    assert(s1.drop_first() =~= s2);
    assert(rule_enabled(m, RuleKind::BalancedHtmlInControlFlow));
    assert(enabled_from(m, s1) =~= seq![
        RuleKind::BalancedHtmlInControlFlow,
        RuleKind::NoControlFlowInScript,
    ]);
}

/// The rules that run when the configuration says nothing: all that are on by default.
pub fn default_rules() -> (rules: Vec<RuleKind>)
    ensures
        rules@ == enabled_rules(Map::empty()),
{
    select_rules(&Config::default())
}

/// The rules that run under `config`, in registry order, or the unknown rule
/// identifiers that `config` switches.
pub fn configured_rules(config: &Config) -> (res: Result<Vec<RuleKind>, RuleConfigError>)
    ensures
        match res {
            Ok(rules) => {
                &&& forall|id: Seq<char>| !unknown_rule_id(config.overrides_view(), id)
                &&& rules@ == enabled_rules(config.overrides_view())
            },
            Err(RuleConfigError::UnknownRuleIds(ids)) => {
                &&& lists_unknown_ids(config.overrides_view(), string_views(ids@))
                &&& ids@.len() > 0
            },
        },
{
    match validate_config(config) {
        Ok(()) => Ok(select_rules(config)),
        Err(error) => Err(error),
    }
}

/// Runs one rule on a context and gives back its findings.
pub fn run_rule_for_test<R: Rule>(rule: &R, ctx: &LintContext<'_>) -> (diagnostics: Vec<Diagnostic>)
    ensures
        diagnostics.deep_view() == rule.findings(ctx.source.spec_bytes(), ctx.smarty_tree@),
{
    let mut diagnostics = Vec::new();
    assert(diagnostics.deep_view() =~= Seq::<DiagnosticModel>::empty());
    rule.check(ctx, &mut diagnostics);
    assert(Seq::<DiagnosticModel>::empty() + rule.findings(ctx.source.spec_bytes(), ctx.smarty_tree@)
        =~= rule.findings(ctx.source.spec_bytes(), ctx.smarty_tree@));
    diagnostics
}

/// Whether `id` is the identifier of a known rule.
fn is_known_rule_id(id: &str) -> (res: bool)
    ensures
        res == known_rule_id(id@),
{
    str_eq(id, BALANCED_RULE_ID) || str_eq(id, LENIENT_RULE_ID) || str_eq(id, STRICT_RULE_ID)
}

/// Inserts `text` into the strictly increasing list `sorted`, which does not hold it.
fn insert_sorted(sorted: &mut Vec<String>, text: String)
    requires
        strictly_sorted(string_views(old(sorted)@)),
        !string_views(old(sorted)@).contains(text@),
    ensures
        strictly_sorted(string_views(final(sorted)@)),
        forall|t: Seq<char>|
            #[trigger] string_views(final(sorted)@).contains(t) <==> (string_views(
                old(sorted)@,
            ).contains(t) || t == text@),
{
    let ghost before = string_views(sorted@);
    let mut p: usize = 0;
    while p < sorted.len() && str_less(sorted[p].as_str(), text.as_str())
        invariant
            before == string_views(sorted@),
            p <= before.len(),
            forall|q: int| 0 <= q < p ==> text_less(#[trigger] before[q], text@),
        decreases sorted.len() - p,
    {
        p = p + 1;
    }
    proof {
        if p < before.len() {
            assert(before[p as int] != text@) by {
                if before[p as int] == text@ {
                    assert(before.contains(text@));
                }
            }
            lemma_text_less_total(before[p as int], text@);
        }
    }
    sorted.insert(p, text);
    let ghost after = string_views(sorted@);
    proof {
        assert(after =~= before.insert(p as int, text@));
        assert forall|a: int, b: int| 0 <= a < b < after.len() implies text_less(
            #[trigger] after[a],
            #[trigger] after[b],
        ) by {
            if b < p {
                assert(after[a] == before[a] && after[b] == before[b]);
            } else if b == p {
                assert(after[a] == before[a]);
            } else if a == p {
                assert(after[b] == before[b - 1]);
                if b - 1 > p {
                    assert(text_less(before[p as int], before[b - 1]));
                    lemma_text_less_transitive(text@, before[p as int], before[b - 1]);
                }
            } else if a < p {
                assert(after[a] == before[a] && after[b] == before[b - 1]);
                assert(text_less(before[a], before[b - 1]));
            } else {
                assert(after[a] == before[a - 1] && after[b] == before[b - 1]);
                assert(text_less(before[a - 1], before[b - 1]));
            }
        }
        assert forall|t: Seq<char>| #[trigger] after.contains(t) <==> (before.contains(t) || t
            == text@) by {
            if after.contains(t) {
                let k = choose|k: int| 0 <= k < after.len() && after[k] == t;
                if k < p {
                    assert(before[k] == t);
                } else if k > p {
                    assert(before[k - 1] == t);
                }
            }
            if before.contains(t) {
                let k = choose|k: int| 0 <= k < before.len() && before[k] == t;
                if k < p {
                    assert(after[k] == t);
                } else {
                    assert(after[k + 1] == t);
                }
            }
            if t == text@ {
                assert(after[p as int] == t);
            }
        }
    }
}

/// Checks that `config` switches only known rules; otherwise lists the unknown
/// identifiers, sorted.
pub fn validate_config(config: &Config) -> (res: Result<(), RuleConfigError>)
    ensures
        match res {
            Ok(()) => forall|id: Seq<char>| !unknown_rule_id(config.overrides_view(), id),
            Err(RuleConfigError::UnknownRuleIds(ids)) => {
                &&& lists_unknown_ids(config.overrides_view(), string_views(ids@))
                &&& ids@.len() > 0
            },
        },
{
    let pairs = config.overrides();
    let ghost o = config.overrides_view();
    proof {
        crate::config::lemma_overrides_map(pairs@);
    }
    let mut unknown: Vec<String> = Vec::new();
    let mut i: usize = 0;
    assert(string_views(unknown@) =~= Seq::<Seq<char>>::empty());
    while i < pairs.len()
        invariant
            o == crate::config::overrides_map(pairs@),
            crate::config::distinct_keys(pairs@),
            i <= pairs@.len(),
            strictly_sorted(string_views(unknown@)),
            forall|t: Seq<char>|
                #[trigger] string_views(unknown@).contains(t) <==> (!known_rule_id(t) && exists|
                    k: int,
                | 0 <= k < i && #[trigger] pairs@[k].0@ == t),
        decreases pairs.len() - i,
    {
        let key = &pairs[i].0;
        if !is_known_rule_id(key.as_str()) {
            proof {
                if string_views(unknown@).contains(key@) {
                    let k = choose|k: int| 0 <= k < i && #[trigger] pairs@[k].0@ == key@;
                    assert(pairs@[k].0@ != pairs@[i as int].0@);
                }
            }
            let ghost before = string_views(unknown@);
            insert_sorted(&mut unknown, key.clone());
            proof {
                assert forall|t: Seq<char>| #[trigger] string_views(unknown@).contains(t) <==> (
                !known_rule_id(t) && exists|k: int| 0 <= k < i + 1 && #[trigger] pairs@[k].0@ == t) by {
                    if t == key@ {
                        assert(pairs@[i as int].0@ == t);
                    }
                    if exists|k: int| 0 <= k < i + 1 && #[trigger] pairs@[k].0@ == t {
                        let k = choose|k: int| 0 <= k < i + 1 && #[trigger] pairs@[k].0@ == t;
                        if k < i {
                            assert(exists|k2: int| 0 <= k2 < i && #[trigger] pairs@[k2].0@ == t);
                        }
                    }
                }
            }
        } else {
            proof {
                assert forall|t: Seq<char>| #[trigger] string_views(unknown@).contains(t) <==> (
                !known_rule_id(t) && exists|k: int| 0 <= k < i + 1 && #[trigger] pairs@[k].0@ == t) by {
                    if exists|k: int| 0 <= k < i + 1 && #[trigger] pairs@[k].0@ == t {
                        let k = choose|k: int| 0 <= k < i + 1 && #[trigger] pairs@[k].0@ == t;
                        if k < i {
                            assert(exists|k2: int| 0 <= k2 < i && #[trigger] pairs@[k2].0@ == t);
                        }
                    }
                }
            }
        }
        i = i + 1;
    }
    proof {
        assert forall|t: Seq<char>| #[trigger] string_views(unknown@).contains(t) <==> unknown_rule_id(
            o,
            t,
        ) by {
            if o.contains_key(t) {
                let k = choose|k: int| 0 <= k < pairs@.len() && #[trigger] pairs@[k].0@ == t;
            }
            if exists|k: int| 0 <= k < pairs@.len() && #[trigger] pairs@[k].0@ == t {
                let k = choose|k: int| 0 <= k < pairs@.len() && #[trigger] pairs@[k].0@ == t;
                assert(o.contains_key(pairs@[k].0@));
            }
        }
    }
    if unknown.len() == 0 {
        proof {
            assert forall|id: Seq<char>| !unknown_rule_id(o, id) by {
                if unknown_rule_id(o, id) {
                    assert(string_views(unknown@).contains(id));
                }
            }
        }
        Ok(())
    } else {
        Err(RuleConfigError::UnknownRuleIds(unknown))
    }
}

/// A list of unknown identifiers names each of them once.
pub proof fn lemma_unknown_ids_listed_once(overrides: Map<Seq<char>, bool>, ids: Seq<Seq<char>>)
    requires
        lists_unknown_ids(overrides, ids),
    ensures
        forall|p: int, q: int| 0 <= p < q < ids.len() ==> #[trigger] ids[p] != #[trigger] ids[q],
{
    assert forall|p: int, q: int| 0 <= p < q < ids.len() implies #[trigger] ids[p] != #[trigger] ids[q] by {
        assert(text_less(ids[p], ids[q]));
        if ids[p] == ids[q] {
            lemma_text_less_irreflexive(ids[p]);
        }
    }
}

/// A configuration's unknown identifiers can be listed in order in one way
/// only, so every function whose error lists them (`validate_config`,
/// `configured_rules`, `lint_source_with_config`) gives the same list.
pub proof fn lemma_unknown_ids_listing_unique(
    overrides: Map<Seq<char>, bool>,
    ids: Seq<Seq<char>>,
    other: Seq<Seq<char>>,
)
    requires
        lists_unknown_ids(overrides, ids),
        lists_unknown_ids(overrides, other),
    ensures
        ids == other,
{
    assert forall|x: Seq<char>| #[trigger] ids.contains(x) <==> other.contains(x) by {
        assert(ids.contains(x) <==> unknown_rule_id(overrides, x));
        assert(other.contains(x) <==> unknown_rule_id(overrides, x));
    }
    lemma_strictly_sorted_unique(ids, other);
}

/// The three registered rules, smarty/balanced-html-in-control-flow,
/// smarty/no-control-flow-in-script and smarty/no-smarty-in-script, are known:
/// switches that name only them leave no identifier unknown, and every
/// registered rule's identifier is known.
pub proof fn lemma_registered_rules_are_known(overrides: Map<Seq<char>, bool>)
    requires
        forall|id: Seq<char>|
            #[trigger] overrides.contains_key(id) ==> id == "smarty/balanced-html-in-control-flow"@
                || id == "smarty/no-control-flow-in-script"@ || id == "smarty/no-smarty-in-script"@,
    ensures
        forall|id: Seq<char>| !unknown_rule_id(overrides, id),
        forall|j: int| 0 <= j < registry().len() ==> known_rule_id(kind_id(#[trigger] registry()[j])),
{
    assert(kind_id(RuleKind::BalancedHtmlInControlFlow) == "smarty/balanced-html-in-control-flow"@);
    assert(kind_id(RuleKind::NoControlFlowInScript) == "smarty/no-control-flow-in-script"@);
    assert(kind_id(RuleKind::NoSmartyInScript) == "smarty/no-smarty-in-script"@);
}

/// An identifier switched by the configuration that is none of the three
/// registered rules' identifiers is unknown.
pub proof fn lemma_other_ids_are_unknown(overrides: Map<Seq<char>, bool>, id: Seq<char>)
    requires
        overrides.contains_key(id),
        id != "smarty/balanced-html-in-control-flow"@,
        id != "smarty/no-control-flow-in-script"@,
        id != "smarty/no-smarty-in-script"@,
    ensures
        unknown_rule_id(overrides, id),
{
}

/// A configuration that the rules cannot take.
#[derive(Debug)]
pub enum RuleConfigError {
    UnknownRuleIds(Vec<String>),
}

/// The message for unknown rule identifiers `ids`.
pub open spec fn unknown_ids_message(ids: Seq<Seq<char>>) -> Seq<char> {
    "unknown rule id"@ + (if ids.len() != 1 {
        "s"@
    } else {
        Seq::<char>::empty()
    }) + ": "@ + join(ids, ", "@)
}

impl RuleConfigError {
    /// The message that describes the error.
    pub fn message(&self) -> (text: String)
        ensures
            text@ == match self {
                RuleConfigError::UnknownRuleIds(ids) => unknown_ids_message(string_views(ids@)),
            },
    {
        match self {
            RuleConfigError::UnknownRuleIds(ids) => {
                let mut text = String::from_str("unknown rule id");
                if ids.len() != 1 {
                    text.append("s");
                } else {
                    assert(text@ + Seq::<char>::empty() =~= text@);
                }
                text.append(": ");
                let joined = join_strings(ids, ", ");
                text.append(joined.as_str());
                text
            },
        }
    }
}

} // verus!
