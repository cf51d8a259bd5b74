use abstract_gui::cli::{
    matches_extension, parse_compare_args, parse_scan_args, resolve_compare_input_paths,
    resolve_input_paths, resolve_paths_by_extension, resolve_scan_input_paths, walk_step,
    ScanStage, WalkStep,
};
use std::path::PathBuf;

#[test]
fn parse_scan_args_supports_stage_and_config_flags() {
    let (stage, config, paths) = parse_scan_args(vec![
        "--stage".to_string(),
        "summary".to_string(),
        "--config".to_string(),
        "scan.yaml".to_string(),
        "sample.yaml".to_string(),
    ])
    .expect("parse");
    assert_eq!(stage, ScanStage::Summary);
    assert_eq!(config.map(PathBuf::from), Some(PathBuf::from("scan.yaml")));
    assert_eq!(paths, vec!["sample.yaml".to_string()]);
}

#[test]
fn parse_compare_args_supports_config_flag() {
    let (config, paths) = parse_compare_args(vec![
        "--config".to_string(),
        "scan.yaml".to_string(),
        "left.html".to_string(),
        "right.html".to_string(),
    ])
    .expect("parse");
    assert_eq!(config.map(PathBuf::from), Some(PathBuf::from("scan.yaml")));
    assert_eq!(paths, vec!["left.html".to_string(), "right.html".to_string()]);
}

#[test]
fn resolve_compare_input_paths_requires_two_inputs() {
    let err = resolve_compare_input_paths(vec!["one.html".to_string()]).expect_err("should fail");
    assert!(err.contains("exactly two"));
}

#[test]
fn flags_without_values_are_refused() {
    assert_eq!(
        parse_compare_args(vec!["a".to_string(), "--config".to_string()]),
        Err("--config requires a value".to_string())
    );
    assert_eq!(
        parse_scan_args(vec!["--stage".to_string()]),
        Err("--stage requires a value".to_string())
    );
    assert_eq!(
        parse_scan_args(vec!["--config".to_string()]),
        Err("--config requires a value".to_string())
    );
    assert_eq!(
        parse_scan_args(vec!["--stage".to_string(), "full".to_string()]),
        Err("unknown scan stage: full (expected: abstract, summary)".to_string())
    );
}

#[test]
fn last_flag_wins() {
    let (stage, config, paths) = parse_scan_args(vec![
        "--stage".to_string(),
        "summary".to_string(),
        "x".to_string(),
        "--stage".to_string(),
        "abstract".to_string(),
        "--config".to_string(),
        "a".to_string(),
        "--config".to_string(),
        "b".to_string(),
    ])
    .expect("parse");
    assert_eq!(stage, ScanStage::Abstract);
    assert_eq!(config, Some("b".to_string()));
    assert_eq!(paths, vec!["x".to_string()]);
    let (config, paths) = parse_compare_args(Vec::new()).expect("parse");
    assert_eq!(config, None);
    assert!(paths.is_empty());
}

#[test]
fn inputs_are_sorted_and_deduplicated() {
    let v = resolve_paths_by_extension(
        vec!["b.gui".to_string(), "a.gui".to_string(), "b.gui".to_string()],
        "none",
    )
    .expect("resolve");
    assert_eq!(v, vec!["a.gui".to_string(), "b.gui".to_string()]);
    assert_eq!(
        resolve_paths_by_extension(vec!["a-b".to_string(), "a/b".to_string()], "none").expect("r"),
        vec!["a/b".to_string(), "a-b".to_string()]
    );
}

#[test]
fn empty_inputs_fail_with_the_command_message() {
    assert_eq!(
        resolve_input_paths(Vec::new()),
        Err("no .gui files found under current directory".to_string())
    );
    assert_eq!(
        resolve_scan_input_paths(Vec::new()),
        Err("scan requires at least one html or yaml file".to_string())
    );
    assert_eq!(
        resolve_compare_input_paths(Vec::new()),
        Err("compare requires exactly two html or yaml files".to_string())
    );
    assert_eq!(
        resolve_compare_input_paths(vec!["r.html".to_string(), "l.html".to_string(), "l.html".to_string()]),
        Ok(vec!["l.html".to_string(), "r.html".to_string()])
    );
}

#[test]
fn extensions_match_ignoring_ascii_case() {
    assert!(matches_extension("GUI", &["gui"]));
    assert!(matches_extension("Htm", &["html", "htm", "yaml", "yml"]));
    assert!(!matches_extension("txt", &["gui"]));
    assert!(!matches_extension("gu", &["gui"]));
    assert!(!matches_extension("É", &["é"]));
}

#[test]
fn walk_descends_into_directories_and_keeps_matching_files() {
    let exts = ["html", "yaml"];
    assert!(matches!(walk_step(true, false, None, &exts), WalkStep::Descend));
    assert!(matches!(walk_step(true, false, Some("html"), &exts), WalkStep::Descend));
    assert!(matches!(walk_step(false, true, Some("HTML"), &exts), WalkStep::Keep));
    assert!(matches!(walk_step(false, true, Some("txt"), &exts), WalkStep::Skip));
    assert!(matches!(walk_step(false, true, None, &exts), WalkStep::Skip));
    assert!(matches!(walk_step(false, false, Some("yaml"), &exts), WalkStep::Skip));
}
