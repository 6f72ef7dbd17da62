pub mod html;
pub mod rules;
pub mod smarty;
pub mod source;

use vstd::prelude::*;

use crate::config::Config;
use crate::diagnostic::{Diagnostic, DiagnosticModel};
use crate::parser::{NodeModel, ParseSetupError, SyntaxTree};
use crate::text::string_views;

pub use rules::{
    default_rules, enabled_rules, lists_unknown_ids, unknown_rule_id, validate_config,
    RuleConfigError, RuleKind,
};
use rules::{kind_id, lemma_enabled_from_enabled, lemma_findings_carry_rule_id, registry, rule_enabled};
use vstd::string::StringSliceAdditionalSpecFns;

verus! {

/// What every rule looks at: the template text and its Smarty syntax tree.
pub struct LintContext<'a> {
    pub source: &'a str,
    pub smarty_tree: SyntaxTree,
}

impl<'a> LintContext<'a> {
    /// A context for `source`, whose Smarty syntax tree is `smarty_tree`.
    pub fn new(source: &'a str, smarty_tree: SyntaxTree) -> (ctx: Self)
        ensures
            ctx.source == source,
            ctx.smarty_tree == smarty_tree,
    {
        LintContext { source, smarty_tree }
    }
}

/// A lint rule: an identifier and a check that appends its findings.
pub trait Rule {
    /// The identifier of the rule.
    spec fn spec_id(&self) -> Seq<char>;

    /// What the rule finds in a template with the given bytes and syntax tree.
    spec fn findings(&self, source: Seq<u8>, tree: Seq<NodeModel>) -> Seq<DiagnosticModel>;

    fn id(&self) -> (id: &'static str)
        ensures
            id@ == self.spec_id(),
    ;

    fn check(&self, ctx: &LintContext<'_>, diagnostics: &mut Vec<Diagnostic>)
        ensures
            final(diagnostics).deep_view() == old(diagnostics).deep_view() + self.findings(
                ctx.source.spec_bytes(),
                ctx.smarty_tree@,
            ),
    ;
}


/// The findings of `rules`, one rule after the other.
pub open spec fn findings_of_rules(source: Seq<u8>, tree: Seq<NodeModel>, rules: Seq<RuleKind>) -> Seq<
    DiagnosticModel,
>
    decreases rules.len(),
{
    if rules.len() == 0 {
        seq![]
    } else {
        rules[0].findings(source, tree) + findings_of_rules(source, tree, rules.drop_first())
    }
}

/// Every finding of `rules` carries the identifier of one of `rules`.
pub proof fn lemma_findings_of_rules_ids(source: Seq<u8>, tree: Seq<NodeModel>, rules: Seq<RuleKind>)
    ensures
        forall|k: int|
            0 <= k < findings_of_rules(source, tree, rules).len() ==> exists|j: int|
                0 <= j < rules.len() && (#[trigger] findings_of_rules(source, tree, rules)[k]).rule_id
                    == kind_id(#[trigger] rules[j]),
    decreases rules.len(),
{
    if rules.len() > 0 {
        let rest_rules = rules.drop_first();
        lemma_findings_of_rules_ids(source, tree, rest_rules);
        lemma_findings_carry_rule_id(rules[0], source, tree);
        let head = rules[0].findings(source, tree);
        let rest = findings_of_rules(source, tree, rest_rules);
        let all = findings_of_rules(source, tree, rules);
        assert(all == head + rest);
        assert forall|k: int| 0 <= k < all.len() implies exists|j: int|
            0 <= j < rules.len() && (#[trigger] all[k]).rule_id == kind_id(#[trigger] rules[j]) by {
            if k < head.len() {
                assert(all[k] == head[k]);
                assert(all[k].rule_id == kind_id(rules[0]));
            } else {
                assert(all[k] == rest[k - head.len()]);
                let j = choose|j: int|
                    0 <= j < rest_rules.len() && (#[trigger] rest[k - head.len()]).rule_id == kind_id(
                        #[trigger] rest_rules[j],
                    );
                assert(rest_rules[j] == rules[j + 1]);
            }
        }
    }
}

/// Every finding of a lint under the switches `overrides` carries the
/// identifier of a rule that those switches turn on.
pub proof fn lemma_findings_from_enabled_rules(
    source: Seq<u8>,
    tree: Seq<NodeModel>,
    overrides: Map<Seq<char>, bool>,
)
    ensures
        forall|k: int|
            0 <= k < findings_of_rules(source, tree, enabled_rules(overrides)).len() ==> exists|
                kind: RuleKind,
            |
                rule_enabled(overrides, kind) && (#[trigger] findings_of_rules(
                    source,
                    tree,
                    enabled_rules(overrides),
                )[k]).rule_id == kind_id(kind),
{
    let rules = enabled_rules(overrides);
    let all = findings_of_rules(source, tree, rules);
    lemma_findings_of_rules_ids(source, tree, rules);
    lemma_enabled_from_enabled(overrides, registry());
    assert forall|k: int| 0 <= k < all.len() implies exists|kind: RuleKind|
        rule_enabled(overrides, kind) && (#[trigger] all[k]).rule_id == kind_id(kind) by {
        let j = choose|j: int|
            0 <= j < rules.len() && (#[trigger] all[k]).rule_id == kind_id(#[trigger] rules[j]);
        assert(rule_enabled(overrides, rules[j]));
    }
}

/// Why linting could not run.
#[derive(Debug)]
pub enum LintError {
    Parse(ParseSetupError),
    RuleConfig(RuleConfigError),
}

impl From<ParseSetupError> for LintError {
    fn from(error: ParseSetupError) -> (lint_error: Self)
        ensures
            lint_error == LintError::Parse(error),
    {
        LintError::Parse(error)
    }
}

impl vstd::std_specs::convert::FromSpecImpl<ParseSetupError> for LintError {
    open spec fn obeys_from_spec() -> bool {
        true
    }

    open spec fn from_spec(error: ParseSetupError) -> Self {
        LintError::Parse(error)
    }
}

impl From<RuleConfigError> for LintError {
    fn from(error: RuleConfigError) -> (lint_error: Self)
        ensures
            lint_error == LintError::RuleConfig(error),
    {
        LintError::RuleConfig(error)
    }
}

impl vstd::std_specs::convert::FromSpecImpl<RuleConfigError> for LintError {
    open spec fn obeys_from_spec() -> bool {
        true
    }

    open spec fn from_spec(error: RuleConfigError) -> Self {
        LintError::RuleConfig(error)
    }
}

/// Lints `source`, whose Smarty syntax tree is `smarty_tree`, with the rules
/// that `config` turns on, in registry order; fails when `config` switches rules
/// that do not exist.
pub fn lint_source_with_config(source: &str, smarty_tree: SyntaxTree, config: &Config) -> (res:
    Result<Vec<Diagnostic>, LintError>)
    ensures
        match res {
            Ok(diagnostics) => {
                &&& forall|id: Seq<char>| !unknown_rule_id(config.overrides_view(), id)
                &&& diagnostics.deep_view() == findings_of_rules(
                    source.spec_bytes(),
                    smarty_tree@,
                    enabled_rules(config.overrides_view()),
                )
            },
            Err(LintError::RuleConfig(RuleConfigError::UnknownRuleIds(ids))) => {
                &&& lists_unknown_ids(config.overrides_view(), string_views(ids@))
                &&& ids@.len() > 0
            },
            Err(LintError::Parse(_)) => false,
        },
{
    let ctx = LintContext::new(source, smarty_tree);
    let rules = match rules::configured_rules(config) {
        Ok(rules) => rules,
        Err(error) => {
            return Err(LintError::from(error));
        },
    };
    let ghost all = rules@;
    let ghost bytes = source.spec_bytes();
    let mut diagnostics: Vec<Diagnostic> = Vec::new();
    let mut i: usize = 0;
    assert(all.skip(0) =~= all);
    assert(diagnostics.deep_view() =~= Seq::<DiagnosticModel>::empty());
    while i < rules.len()
        invariant
            all == rules@,
            bytes == ctx.source.spec_bytes(),
            ctx.smarty_tree == smarty_tree,
            i <= all.len(),
            findings_of_rules(bytes, smarty_tree@, all) == diagnostics.deep_view()
                + findings_of_rules(bytes, smarty_tree@, all.skip(i as int)),
        decreases rules.len() - i,
    {
        let ghost before = diagnostics.deep_view();
        assert(all.skip(i as int).drop_first() =~= all.skip(i + 1));
        rules[i].check(&ctx, &mut diagnostics);
        assert(before + findings_of_rules(bytes, smarty_tree@, all.skip(i as int))
            =~= diagnostics.deep_view() + findings_of_rules(bytes, smarty_tree@, all.skip(i + 1)));
        i = i + 1;
    }
    assert(diagnostics.deep_view() + findings_of_rules(bytes, smarty_tree@, all.skip(i as int))
        =~= diagnostics.deep_view());
    Ok(diagnostics)
}

/// Lints `source`, whose Smarty syntax tree is `smarty_tree`, with the default rules.
pub fn lint_source(source: &str, smarty_tree: SyntaxTree) -> (diagnostics: Vec<Diagnostic>)
    ensures
        diagnostics.deep_view() == findings_of_rules(
            source.spec_bytes(),
            smarty_tree@,
            enabled_rules(Map::empty()),
        ),
{
    let config = Config::default();
    match lint_source_with_config(source, smarty_tree, &config) {
        Ok(diagnostics) => diagnostics,
        Err(error) => {
            proof {
                match error {
                    LintError::RuleConfig(RuleConfigError::UnknownRuleIds(ids)) => {
                        assert(string_views(ids@).contains(string_views(ids@)[0]));
                    },
                    LintError::Parse(_) => {},
                }
            }
            Vec::new()
        },
    }
}

} // verus!
