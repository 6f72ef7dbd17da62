//! Lint Smarty templates: checks that direct HTML inside Smarty control-flow
//! branches is balanced and that Smarty statements stay out of `<script>` bodies.

pub mod cli;
pub mod config;
pub mod diagnostic;
pub mod lint;
pub mod parser;
pub mod text;

pub use config::Config;
pub use diagnostic::{Diagnostic, Position, Range, Severity};
pub use lint::{
    default_rules, lint_source, lint_source_with_config, validate_config, LintContext, LintError,
    Rule,
};
