use smarty_checker::config::Config;
use smarty_checker::lint::rules::{configured_rules, run_rule_for_test, RuleConfigError};
use smarty_checker::lint::rules::{NoControlFlowInScript, NoSmartyInScript};
use smarty_checker::parser::{Point, SyntaxNode, SyntaxTree};
use smarty_checker::{
    default_rules, lint_source, lint_source_with_config, validate_config, LintContext, LintError,
    Rule,
};

fn node(kind: &str, depth: usize, start: usize, end: usize) -> SyntaxNode {
    SyntaxNode::new(
        kind.to_string(),
        true,
        depth,
        start,
        end,
        Point::new(0, start),
        Point::new(0, end),
    )
}

fn tree(nodes: Vec<SyntaxNode>) -> SyntaxTree {
    SyntaxTree { nodes }
}

fn messages(source: &str, smarty_tree: SyntaxTree) -> Vec<String> {
    lint_source(source, smarty_tree)
        .into_iter()
        .map(|diagnostic| diagnostic.message)
        .collect()
}

fn config_from_toml(contents: &str) -> Config {
    let table: toml::Table = toml::from_str(contents).expect("test config should parse");
    let mut overrides = Vec::new();
    if let Some(toml::Value::Table(rules)) = table.get("rules") {
        for (rule_id, value) in rules {
            overrides.push((rule_id.clone(), value.as_bool().expect("a switch")));
        }
    }
    Config::from_rule_overrides(overrides)
}

// ----- smarty/balanced-html-in-control-flow -----

#[test]
fn accepts_balanced_nested_control_flow() {
    let source = "{if $x}<ul>{if $y}<li></li><li></li>{/if}</ul>{/if}";
    let smarty_tree = tree(vec![
        node("template", 0, 0, 51),
        node("if_block", 1, 0, 51),
        node("body", 2, 7, 46),
        node("if_block", 3, 11, 41),
        node("body", 4, 18, 36),
    ]);
    let diagnostics = messages(source, smarty_tree);

    assert_eq!(diagnostics, Vec::<String>::new());
}

#[test]
fn rejects_tags_balanced_only_across_branches() {
    let source = "{if $x}<div>{else}</div>{/if}";
    let smarty_tree = tree(vec![
        node("template", 0, 0, 29),
        node("if_block", 1, 0, 29),
        node("body", 2, 7, 12),
        node("else_block", 2, 12, 24),
        node("body", 3, 18, 24),
    ]);
    let diagnostics = messages(source, smarty_tree);

    assert_eq!(diagnostics.len(), 2);
    assert!(diagnostics[0].contains("Opening <div> is not closed"));
    assert!(diagnostics[1].contains("Closing </div> has no matching opening tag"));
}

#[test]
fn checks_nested_bodies_independently() {
    let source = "{if $x}<ul>{if $y}</ul>{/if}{/if}";
    let smarty_tree = tree(vec![
        node("template", 0, 0, 33),
        node("if_block", 1, 0, 33),
        node("body", 2, 7, 28),
        node("if_block", 3, 11, 28),
        node("body", 4, 18, 23),
    ]);
    let diagnostics = messages(source, smarty_tree);

    assert_eq!(diagnostics.len(), 2);
    assert!(diagnostics[0].contains("Opening <ul> is not closed"));
    assert!(diagnostics[1].contains("Closing </ul> has no matching opening tag"));
}

#[test]
fn accepts_smarty_inline_expressions_in_html() {
    let source = r#"{if $x}<div class="{$class}">{$content}</div>{/if}"#;
    let smarty_tree = tree(vec![
        node("template", 0, 0, 50),
        node("if_block", 1, 0, 50),
        node("body", 2, 7, 45),
        node("inline", 3, 19, 27),
        node("inline", 3, 29, 39),
    ]);
    let diagnostics = messages(source, smarty_tree);

    assert_eq!(diagnostics, Vec::<String>::new());
}

#[test]
fn accepts_void_and_self_closing_tags() {
    let source = r#"{if $x}<div><br><img src="{$src}"><x-widget /></div>{/if}"#;
    let smarty_tree = tree(vec![
        node("template", 0, 0, 57),
        node("if_block", 1, 0, 57),
        node("body", 2, 7, 52),
        node("inline", 3, 26, 32),
    ]);
    let diagnostics = messages(source, smarty_tree);

    assert_eq!(diagnostics, Vec::<String>::new());
}

#[test]
fn rejects_optional_end_tags() {
    let source = "{if $x}<ul><li>One<li>Two</ul>{/if}";
    let smarty_tree = tree(vec![
        node("template", 0, 0, 35),
        node("if_block", 1, 0, 35),
        node("body", 2, 7, 30),
    ]);
    let diagnostics = messages(source, smarty_tree);

    assert_eq!(diagnostics.len(), 2);
    assert!(diagnostics[0].contains("Opening <li> is not closed"));
    assert!(diagnostics[1].contains("Opening <li> is not closed"));
}

#[test]
fn rejects_mismatched_direct_html() {
    let source = "{if $x}<section><div></section>{/if}";
    let smarty_tree = tree(vec![
        node("template", 0, 0, 36),
        node("if_block", 1, 0, 36),
        node("body", 2, 7, 31),
    ]);
    let diagnostics = messages(source, smarty_tree);

    assert_eq!(diagnostics.len(), 1);
    assert!(diagnostics[0].contains("Opening <div> is not closed"));
}

#[test]
fn dynamic_tag_names_are_unsupported_by_this_rule() {
    let source = "{if $x}<{$tag}>content</{$tag}>{/if}";
    let smarty_tree = tree(vec![
        node("template", 0, 0, 36),
        node("if_block", 1, 0, 36),
        node("body", 2, 7, 31),
        node("inline", 3, 8, 14),
        node("inline", 3, 24, 30),
    ]);
    let diagnostics = messages(source, smarty_tree);

    assert_eq!(diagnostics, Vec::<String>::new());
}

#[test]
fn ignores_non_tag_less_than_text() {
    let source = "{if $x}Price < 10<div></div>{/if}";
    let smarty_tree = tree(vec![
        node("template", 0, 0, 33),
        node("if_block", 1, 0, 33),
        node("body", 2, 7, 28),
    ]);
    let diagnostics = messages(source, smarty_tree);

    assert_eq!(diagnostics, Vec::<String>::new());
}

#[test]
fn accepts_conditional_attributes_by_checking_outer_and_inner_bodies() {
    let source = r#"{if $x}<button {if $disabled}disabled{/if}>Save</button>{/if}"#;
    let smarty_tree = tree(vec![
        node("template", 0, 0, 61),
        node("if_block", 1, 0, 61),
        node("body", 2, 7, 56),
        node("if_block", 3, 15, 42),
        node("body", 4, 29, 37),
    ]);
    let diagnostics = messages(source, smarty_tree);

    assert_eq!(diagnostics, Vec::<String>::new());
}

#[test]
fn findings_carry_rule_severity_and_source_range() {
    let source = "{if $x}\n  <div>{/if}";
    let smarty_tree = tree(vec![
        node("template", 0, 0, 20),
        node("if_block", 1, 0, 20),
        SyntaxNode::new(
            "body".to_string(),
            true,
            2,
            7,
            15,
            Point::new(0, 7),
            Point::new(1, 7),
        ),
    ]);
    let diagnostics = lint_source(source, smarty_tree);

    assert_eq!(diagnostics.len(), 1);
    let diagnostic = &diagnostics[0];
    assert_eq!(diagnostic.rule_id, "smarty/balanced-html-in-control-flow");
    assert_eq!(diagnostic.severity.as_str(), "error");
    assert_eq!(
        diagnostic.message,
        "Opening <div> is not closed in this Smarty branch"
    );
    assert_eq!(diagnostic.range.start_byte, 10);
    assert_eq!(diagnostic.range.end_byte, 15);
    assert_eq!(diagnostic.range.start.row, 1);
    assert_eq!(diagnostic.range.start.column, 2);
}

#[test]
fn bodies_outside_control_flow_are_not_checked() {
    let source = "{function name=x}<div>{/function}";
    let smarty_tree = tree(vec![
        node("template", 0, 0, 33),
        node("function_block", 1, 0, 33),
        node("body", 2, 17, 22),
    ]);

    assert_eq!(messages(source, smarty_tree), Vec::<String>::new());
}

#[test]
fn closing_tag_reports_tags_opened_above_it() {
    let source = "{if $x}<a><b><c></a>{/if}";
    let smarty_tree = tree(vec![
        node("template", 0, 0, 25),
        node("if_block", 1, 0, 25),
        node("body", 2, 7, 20),
    ]);
    let diagnostics = messages(source, smarty_tree);

    assert_eq!(
        diagnostics,
        vec![
            "Opening <b> is not closed in this Smarty branch".to_string(),
            "Opening <c> is not closed in this Smarty branch".to_string(),
        ]
    );
}

#[test]
fn findings_point_at_tags_in_their_body() {
    let source = "{if $x}<a><b><c></a>{else}</d>{/if}";
    let smarty_tree = tree(vec![
        node("template", 0, 0, 35),
        node("if_block", 1, 0, 35),
        node("body", 2, 7, 20),
        node("else_block", 2, 20, 30),
        node("body", 3, 26, 30),
    ]);
    let diagnostics = lint_source(source, smarty_tree);
    let bytes = source.as_bytes();

    assert_eq!(diagnostics.len(), 3);
    let bodies = [(7, 20), (7, 20), (26, 30)];
    for (diagnostic, (start, end)) in diagnostics.iter().zip(bodies) {
        let range = diagnostic.range;
        assert!(start <= range.start_byte && range.end_byte <= end);
        assert_eq!(bytes[range.start_byte], b'<');
        assert_eq!(bytes[range.end_byte - 1], b'>');
    }
    assert_eq!(
        diagnostics[2].message,
        "Closing </d> has no matching opening tag in this Smarty branch"
    );
}

// ----- smarty/no-control-flow-in-script and smarty/no-smarty-in-script -----

fn default_messages(source: &str, smarty_tree: SyntaxTree) -> Vec<String> {
    lint_source(source, smarty_tree)
        .into_iter()
        .filter(|diagnostic| diagnostic.rule_id == "smarty/no-control-flow-in-script")
        .map(|diagnostic| diagnostic.message)
        .collect()
}

fn inline_in_script_tree() -> SyntaxTree {
    tree(vec![node("template", 0, 0, 34), node("inline", 1, 19, 24)])
}

fn script_attribute_tree() -> SyntaxTree {
    tree(vec![node("template", 0, 0, 36), node("inline", 1, 13, 25)])
}

#[test]
fn default_rule_rejects_if_inside_script_body() {
    let source = "<script>{if $x}init();{/if}</script>";
    let smarty_tree = tree(vec![
        node("template", 0, 0, 36),
        node("if_block", 1, 8, 27),
        node("body", 2, 15, 22),
    ]);
    let diagnostics = default_messages(source, smarty_tree);

    assert_eq!(diagnostics.len(), 1);
    assert!(diagnostics[0].contains("if"));
}

#[test]
fn default_rule_rejects_foreach_inside_script_body() {
    let source = "<script>{foreach $items as $item}init();{/foreach}</script>";
    let smarty_tree = tree(vec![
        node("template", 0, 0, 59),
        node("foreach_block", 1, 8, 50),
        node("body", 2, 33, 40),
    ]);
    let diagnostics = default_messages(source, smarty_tree);

    assert_eq!(diagnostics.len(), 1);
    assert!(diagnostics[0].contains("foreach"));
}

#[test]
fn default_rule_allows_inline_output_inside_script_body_for_now() {
    let diagnostics =
        default_messages("<script>const id = {$id};</script>", inline_in_script_tree());

    assert_eq!(diagnostics, Vec::<String>::new());
}

#[test]
fn default_rule_allows_smarty_in_script_tag_attributes() {
    let diagnostics = default_messages(
        r#"<script src="{$asset_url}"></script>"#,
        script_attribute_tree(),
    );

    assert_eq!(diagnostics, Vec::<String>::new());
}

#[test]
fn default_rule_allows_control_flow_wrapping_script_element() {
    let source = "{if $x}<script>init();</script>{/if}";
    let smarty_tree = tree(vec![
        node("template", 0, 0, 36),
        node("if_block", 1, 0, 36),
        node("body", 2, 7, 31),
    ]);
    let diagnostics = default_messages(source, smarty_tree);

    assert_eq!(diagnostics, Vec::<String>::new());
}

#[test]
fn strict_rule_rejects_inline_output_inside_script_body() {
    let ctx = LintContext::new("<script>const id = {$id};</script>", inline_in_script_tree());
    let diagnostics = run_rule_for_test(&NoSmartyInScript, &ctx);

    assert_eq!(diagnostics.len(), 1);
    assert_eq!(diagnostics[0].rule_id, "smarty/no-smarty-in-script");
    assert!(diagnostics[0].message.contains("inline"));
}

#[test]
fn strict_rule_still_allows_smarty_in_script_tag_attributes() {
    let ctx = LintContext::new(
        r#"<script src="{$asset_url}"></script>"#,
        script_attribute_tree(),
    );
    let diagnostics = run_rule_for_test(&NoSmartyInScript, &ctx);

    assert_eq!(diagnostics, Vec::new());
}

#[test]
fn nested_statements_are_reported_once() {
    let source = "<script>{if $x}{if $y}a();{/if}{/if}{if $z}b();{/if}</script>";
    let smarty_tree = tree(vec![
        node("template", 0, 0, 61),
        node("if_block", 1, 8, 36),
        node("body", 2, 15, 31),
        node("if_block", 3, 15, 31),
        node("body", 4, 22, 26),
        node("if_block", 1, 36, 52),
        node("body", 2, 43, 47),
    ]);
    let ctx = LintContext::new(source, smarty_tree);
    let diagnostics = run_rule_for_test(&NoControlFlowInScript, &ctx);

    assert_eq!(diagnostics.len(), 2);
    assert_eq!(diagnostics[0].range.start_byte, 8);
    assert_eq!(diagnostics[1].range.start_byte, 36);
    assert!(diagnostics[0].range.end_byte <= diagnostics[1].range.start_byte);
    assert_eq!(
        diagnostics[0].message,
        "Smarty control-flow statement `if_block` is not allowed inside a script body"
    );
}

#[test]
fn strict_rule_reports_what_lenient_rule_reports() {
    let source = "<script>{if $x}init();{/if}</script>";
    let smarty_tree = tree(vec![
        node("template", 0, 0, 36),
        node("if_block", 1, 8, 27),
        node("body", 2, 15, 22),
    ]);
    let ctx = LintContext::new(source, smarty_tree);
    let strict = run_rule_for_test(&NoSmartyInScript, &ctx);
    let lenient = run_rule_for_test(&NoControlFlowInScript, &ctx);

    assert_eq!(strict.len(), 1);
    assert_eq!(lenient.len(), 1);
    assert_eq!(
        strict[0].message,
        "Smarty statement `if_block` is not allowed inside a script body"
    );
    assert_eq!(strict[0].range, lenient[0].range);
}

// ----- configuration -----

#[test]
fn default_rules_keep_the_existing_rule_set() {
    let rules = default_rules();

    let rule_ids: Vec<&str> = rules.iter().map(|rule| rule.id()).collect();
    assert_eq!(
        rule_ids,
        vec![
            "smarty/balanced-html-in-control-flow",
            "smarty/no-control-flow-in-script"
        ]
    );
}

#[test]
fn configured_rules_can_enable_and_disable_rules() {
    let config = config_from_toml(
        r#"
            [rules]
            "smarty/balanced-html-in-control-flow" = false
            "smarty/no-smarty-in-script" = true
            "#,
    );

    let rules = configured_rules(&config).expect("rules");

    let rule_ids: Vec<&str> = rules.iter().map(|rule| rule.id()).collect();
    assert_eq!(
        rule_ids,
        vec![
            "smarty/no-control-flow-in-script",
            "smarty/no-smarty-in-script"
        ]
    );
}

#[test]
fn configured_rules_reject_unknown_rules() {
    let config = config_from_toml(
        r#"
            [rules]
            "smarty/typo" = true
            "#,
    );

    let error = match configured_rules(&config) {
        Ok(_) => panic!("unknown rule should fail"),
        Err(error) => error,
    };

    assert!(matches!(error, RuleConfigError::UnknownRuleIds(_)));
    assert_eq!(error.message(), "unknown rule id: smarty/typo");
}

#[test]
fn unknown_rules_are_listed_sorted() {
    let config = Config::from_rule_overrides(vec![
        ("zeta".to_string(), true),
        ("smarty/no-smarty-in-script".to_string(), true),
        ("alpha".to_string(), false),
        ("Beta".to_string(), false),
    ]);

    let error = validate_config(&config).expect_err("unknown ids");

    match &error {
        RuleConfigError::UnknownRuleIds(ids) => {
            assert_eq!(ids, &vec!["Beta".to_string(), "alpha".to_string(), "zeta".to_string()]);
        }
    }
    assert_eq!(error.message(), "unknown rule ids: Beta, alpha, zeta");
}

#[test]
fn known_rules_validate() {
    let config = Config::from_rule_overrides(vec![
        ("smarty/no-smarty-in-script".to_string(), true),
        ("smarty/balanced-html-in-control-flow".to_string(), false),
    ]);
    assert!(validate_config(&config).is_ok());
    assert!(validate_config(&Config::default()).is_ok());
}

#[test]
fn switches_override_defaults_and_later_switch_wins() {
    let config = Config::from_rule_overrides(vec![
        ("smarty/no-smarty-in-script".to_string(), true),
        ("smarty/no-control-flow-in-script".to_string(), true),
        ("smarty/no-control-flow-in-script".to_string(), false),
    ]);
    assert!(config.is_rule_enabled("smarty/no-smarty-in-script", false));
    assert!(!config.is_rule_enabled("smarty/no-control-flow-in-script", true));
    assert!(config.is_rule_enabled("smarty/balanced-html-in-control-flow", true));
    assert!(!config.is_rule_enabled("smarty/balanced-html-in-control-flow", false));
    assert_eq!(config.overrides().len(), 2);
}

#[test]
fn configured_lint_runs_enabled_rules_in_order() {
    let config = Config::from_rule_overrides(vec![("smarty/no-smarty-in-script".to_string(), true)]);
    let source = "<script>const id = {$id};</script>";
    let diagnostics = lint_source_with_config(source, inline_in_script_tree(), &config)
        .expect("lint should run");

    assert_eq!(diagnostics.len(), 1);
    assert_eq!(diagnostics[0].rule_id, "smarty/no-smarty-in-script");
}

#[test]
fn configured_lint_rejects_unknown_rules() {
    let config = Config::from_rule_overrides(vec![("smarty/typo".to_string(), true)]);
    let result = lint_source_with_config("<p></p>", tree(vec![node("template", 0, 0, 7)]), &config);

    assert!(matches!(result, Err(LintError::RuleConfig(_))));
}

#[test]
fn default_lint_equals_configured_lint_with_default_config() {
    let source = "{if $x}<div>{else}</div>{/if}";
    let make = || {
        tree(vec![
            node("template", 0, 0, 29),
            node("if_block", 1, 0, 29),
            node("body", 2, 7, 12),
            node("else_block", 2, 12, 24),
            node("body", 3, 18, 24),
        ])
    };
    let plain = lint_source(source, make());
    let configured = lint_source_with_config(source, make(), &Config::default()).expect("lint");

    assert_eq!(plain, configured);
}

#[test]
fn lint_errors_convert_from_their_causes() {
    let error = LintError::from(RuleConfigError::UnknownRuleIds(vec!["x".to_string()]));
    match error {
        LintError::RuleConfig(RuleConfigError::UnknownRuleIds(ids)) => {
            assert_eq!(ids, vec!["x".to_string()])
        }
        _ => panic!("wrong variant"),
    }
}

#[test]
fn findings_carry_ids_of_enabled_rules() {
    let source = "<script>{if $x}<b>{/if}</script>";
    let smarty_tree = tree(vec![
        node("template", 0, 0, 32),
        node("if_block", 1, 8, 23),
        node("body", 2, 15, 18),
    ]);
    let config = config_from_toml(
        r#"
        [rules]
        "smarty/no-smarty-in-script" = true
        "#,
    );
    let diagnostics = lint_source_with_config(source, smarty_tree, &config).expect("lint");
    let enabled: Vec<&str> = configured_rules(&config)
        .expect("rules")
        .iter()
        .map(|rule| rule.id())
        .collect();

    assert_eq!(diagnostics.len(), 3);
    for diagnostic in &diagnostics {
        assert!(enabled.contains(&diagnostic.rule_id));
    }
}

#[test]
fn configured_rules_and_validation_list_the_same_unknown_ids() {
    let config = config_from_toml(
        r#"
        [rules]
        "smarty/zeta" = true
        "smarty/alpha" = false
        "smarty/no-smarty-in-script" = true
        "#,
    );
    let from_rules = match configured_rules(&config) {
        Err(RuleConfigError::UnknownRuleIds(ids)) => ids,
        Ok(_) => panic!("unknown rules should fail"),
    };
    let from_validation = match validate_config(&config) {
        Err(RuleConfigError::UnknownRuleIds(ids)) => ids,
        Ok(()) => panic!("unknown rules should fail"),
    };

    assert_eq!(from_rules, from_validation);
    assert_eq!(from_rules, vec!["smarty/alpha".to_string(), "smarty/zeta".to_string()]);
}
