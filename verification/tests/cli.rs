use smarty_checker::cli::{usage, Args, CliError};

#[test]
fn parses_files_without_config() {
    let args = Args::parse(vec!["one.tpl".to_string(), "two.tpl".to_string()]).expect("args");

    assert_eq!(
        args,
        Args {
            config_path: None,
            paths: vec!["one.tpl".to_string(), "two.tpl".to_string()]
        }
    );
}

#[test]
fn parses_config_before_files() {
    let args = Args::parse(vec![
        "-c".to_string(),
        "smarty-checker.toml".to_string(),
        "one.tpl".to_string(),
    ])
    .expect("args");

    assert_eq!(
        args,
        Args {
            config_path: Some("smarty-checker.toml".to_string()),
            paths: vec!["one.tpl".to_string()]
        }
    );
}

#[test]
fn rejects_missing_config_path() {
    let error = Args::parse(vec!["-c".to_string()]).expect_err("missing config path");

    assert_eq!(error, CliError::MissingConfigPath);
}

#[test]
fn rejects_unknown_flags() {
    let error = Args::parse(vec!["--config".to_string()]).expect_err("unknown flag");

    assert_eq!(error, CliError::UnknownFlag("--config".to_string()));
}

#[test]
fn rejects_empty_command_line() {
    let error = Args::parse(Vec::new()).expect_err("no files");

    assert_eq!(error, CliError::MissingInputFiles);
}

#[test]
fn rejects_config_without_files() {
    let error = Args::parse(vec!["-c".to_string(), "a.toml".to_string()]).expect_err("no files");

    assert_eq!(error, CliError::MissingInputFiles);
}

#[test]
fn later_config_path_wins_and_files_keep_order() {
    let args = Args::parse(vec![
        "b.tpl".to_string(),
        "-c".to_string(),
        "first.toml".to_string(),
        "a.tpl".to_string(),
        "-c".to_string(),
        "second.toml".to_string(),
    ])
    .expect("args");

    assert_eq!(
        args,
        Args {
            config_path: Some("second.toml".to_string()),
            paths: vec!["b.tpl".to_string(), "a.tpl".to_string()]
        }
    );
}

#[test]
fn first_error_stops_reading() {
    let error = Args::parse(vec!["-x".to_string(), "-c".to_string()]).expect_err("unknown flag");

    assert_eq!(error, CliError::UnknownFlag("-x".to_string()));
}

#[test]
fn lone_dash_is_a_flag() {
    let error = Args::parse(vec!["-".to_string(), "a.tpl".to_string()]).expect_err("flag");

    assert_eq!(error, CliError::UnknownFlag("-".to_string()));
}

#[test]
fn usage_names_the_program() {
    assert_eq!(
        usage("smarty-checker"),
        "usage: smarty-checker [-c config.toml] <file.tpl> [file.tpl ...]"
    );
}

#[test]
fn cli_error_messages() {
    assert_eq!(CliError::MissingConfigPath.message(), "-c requires a config path");
    assert_eq!(CliError::MissingInputFiles.message(), "missing input file");
    assert_eq!(
        CliError::UnknownFlag("--config".to_string()).message(),
        "unknown flag: --config"
    );
}
