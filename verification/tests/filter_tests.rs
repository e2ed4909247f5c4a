use reddit_rs::cli::{parse_lowercase, CompressionArgs, FilterArgs};
use reddit_rs::filter::{
    construct_filename, expand_placeholders, extract_json, input_kind, matches_name, plan_outputs,
    route_for_subreddit, route_line, select_route, validate_args, writes_zstd, FilterError,
    InputKind, LineRoute,
};

fn filter_args(input: &[&str], output: Option<&str>, split: bool, names: &[&str]) -> FilterArgs {
    FilterArgs {
        input: input.iter().map(|s| s.to_string()).collect(),
        output: output.map(|s| s.to_string()),
        split,
        name: names.iter().map(|s| s.to_string()).collect(),
        compression: CompressionArgs::default(),
    }
}

#[test]
fn test_extract_nested_json() {
    // This must be tested to deal with crossposts, manual implementations of reading may fail here
    let line = r#"{"crosspost_parent_list": [{"subreddit": "foo"}],"subreddit": "bar"}"#;
    assert_eq!(extract_json(line), "bar");
}

#[test]
fn test_extract() {
    let line = r#"{"subreddit": "bar"}"#;
    assert_eq!(extract_json(line), "bar");
}

#[test]
fn test_expand_basename_only() {
    let result = expand_placeholders("{basename}_filtered", "RC_2025-09", None, 100);
    assert_eq!(result, "RC_2025-09_filtered");
}

#[test]
fn test_expand_with_subreddit() {
    let result = expand_placeholders("{basename}_{subreddit}", "RC_2025-09", Some("foo"), 100);
    assert_eq!(result, "RC_2025-09_foo");
}

#[test]
fn test_expand_all_placeholders() {
    let result = expand_placeholders(
        "{basename}_{subreddit}_{timestamp}",
        "RC_2025-09",
        Some("foo"),
        100,
    );
    assert_eq!(result, "RC_2025-09_foo_100");
}

#[test]
fn test_expand_with_directory() {
    let result = expand_placeholders(
        "outputs/{basename}_{subreddit}",
        "RC_2025-09",
        Some("foo"),
        100,
    );
    assert_eq!(result, "outputs/RC_2025-09_foo");
}

#[test]
fn test_expand_timestamp_only() {
    let result = expand_placeholders("data_{timestamp}", "RC_2025-09", None, 100);
    assert_eq!(result, "data_100");
}

#[test]
fn test_construct_filename_with_user_output_no_append() {
    let result = construct_filename(
        "processed/{basename}.zst",
        "submission-R_2025-09",
        None,
        100,
        "zst",
        false,
    );
    assert_eq!(result, "processed/submission-R_2025-09.zst");
}

#[test]
fn test_construct_filename_default_template_with_append() {
    let result = construct_filename(
        "{basename}_filtered",
        "submission-R_2025-09",
        None,
        100,
        "zst",
        true,
    );
    assert_eq!(result, "submission-R_2025-09_filtered.zst");
}

#[test]
fn test_construct_filename_split_mode_with_append() {
    let result = construct_filename(
        "{basename}_{subreddit}",
        "submission-R_2025-09",
        Some("foo"),
        100,
        "zst",
        true,
    );
    assert_eq!(result, "submission-R_2025-09_foo.zst");
}

#[test]
fn test_construct_filename_split_mode_user_output_no_append() {
    let result = construct_filename(
        "outputs/{basename}_{subreddit}.jsonl",
        "submission-R_2025-09",
        Some("foo"),
        100,
        "jsonl",
        false,
    );
    assert_eq!(result, "outputs/submission-R_2025-09_foo.jsonl");
}

#[test]
fn test_construct_filename_with_directory() {
    let result = construct_filename(
        "processed/{basename}.zst",
        "submission-R_2025-09",
        None,
        100,
        "zst",
        false,
    );
    assert_eq!(result, "processed/submission-R_2025-09.zst");
}

#[test]
fn expand_repeated_and_large_timestamp() {
    let result = expand_placeholders("{basename}-{basename}/{timestamp}", "a", None, 18446744073709551615);
    assert_eq!(result, "a-a/18446744073709551615");
    let zero = expand_placeholders("{timestamp}", "a", None, 0);
    assert_eq!(zero, "0");
}

#[test]
fn expand_leaves_subreddit_without_value() {
    let result = expand_placeholders("{basename}_{subreddit}", "RC", None, 7);
    assert_eq!(result, "RC_{subreddit}");
}

#[test]
fn expand_plain_template_unchanged() {
    let result = expand_placeholders("out/plain.jsonl", "RC", Some("x"), 7);
    assert_eq!(result, "out/plain.jsonl");
}

#[test]
fn expand_replaces_in_order() {
    // A basename holding a placeholder is expanded by the later replacements.
    let result = expand_placeholders("{basename}", "x{timestamp}", None, 5);
    assert_eq!(result, "x5");
}

#[test]
fn validate_accepts_without_output() {
    let args = filter_args(&["a.zst", "b.zst"], None, true, &["foo"]);
    assert_eq!(validate_args(&args), Ok(()));
}

#[test]
fn validate_bad_extension() {
    let args = filter_args(&["a.zst"], Some("out.txt"), false, &["foo"]);
    assert_eq!(validate_args(&args), Err(FilterError::BadExtension));
}

#[test]
fn validate_extension_checked_before_placeholders() {
    let args = filter_args(&["a.zst"], Some("{bad}.txt"), false, &["foo"]);
    assert_eq!(validate_args(&args), Err(FilterError::BadExtension));
}

#[test]
fn validate_invalid_placeholders_listed() {
    let args = filter_args(&["a.zst"], Some("{foo}_{basename}_{bar}.jsonl"), false, &["x"]);
    assert_eq!(
        validate_args(&args),
        Err(FilterError::InvalidPlaceholders(vec!["{foo}".to_string(), "{bar}".to_string()]))
    );
}

#[test]
fn validate_placeholder_scan_leftmost() {
    // "{{a}" holds the placeholder "{a"; "{}" holds none.
    let args = filter_args(&["a.zst"], Some("{{a}{}.zst"), false, &["x"]);
    assert_eq!(
        validate_args(&args),
        Err(FilterError::InvalidPlaceholders(vec!["{{a}".to_string()]))
    );
}

#[test]
fn validate_split_needs_subreddit() {
    let args = filter_args(&["a.zst"], Some("{basename}.zst"), true, &["x"]);
    assert_eq!(validate_args(&args), Err(FilterError::SplitWithoutSubreddit));
}

#[test]
fn validate_multiple_inputs_need_basename() {
    let args = filter_args(&["a.zst", "b.zst"], Some("{subreddit}.zst"), true, &["x"]);
    assert_eq!(validate_args(&args), Err(FilterError::MultipleInputsWithoutBasename));
}

#[test]
fn validate_accepts_good_template() {
    let args = filter_args(&["a.zst", "b.zst"], Some("out/{basename}_{subreddit}_{timestamp}.jsonl"), true, &["x"]);
    assert_eq!(validate_args(&args), Ok(()));
}

#[test]
fn parse_lowercase_lowers() {
    assert_eq!(parse_lowercase("AskReddit"), "askreddit");
}

#[test]
fn matching_ignores_ascii_case() {
    let names = vec!["askreddit".to_string(), "funny".to_string()];
    assert!(matches_name(&names, "AskReddit"));
    assert!(matches_name(&names, "FUNNY"));
    assert!(!matches_name(&names, "funny2"));
    assert!(!matches_name(&names, ""));
}

#[test]
fn select_route_cases() {
    let names = vec!["a".to_string(), "b".to_string(), "b".to_string()];
    assert_eq!(select_route(&names, true, false, "b"), LineRoute::Skip);
    assert_eq!(select_route(&names, false, true, "b"), LineRoute::Combined);
    assert_eq!(select_route(&names, true, true, "b"), LineRoute::Split(1));
    assert_eq!(select_route(&names, true, true, "c"), LineRoute::Skip);
}

#[test]
fn route_subreddit_split_uses_lowercase_key() {
    let names = vec!["foo".to_string(), "bar".to_string()];
    assert_eq!(route_for_subreddit(&names, true, "BAR"), LineRoute::Split(1));
    // A name not in lower case matches, but no file is kept under it.
    let mixed = vec!["Foo".to_string()];
    assert_eq!(route_for_subreddit(&mixed, true, "foo"), LineRoute::Skip);
    assert_eq!(route_for_subreddit(&mixed, false, "foo"), LineRoute::Combined);
}

#[test]
fn route_line_reads_subreddit() {
    let names = vec!["bar".to_string()];
    let line = r#"{"crosspost_parent_list": [{"subreddit": "foo"}],"subreddit": "Bar"}"#;
    assert_eq!(route_line(line, &names, false), LineRoute::Combined);
    assert_eq!(route_line(line, &names, true), LineRoute::Split(0));
    assert_eq!(route_line(r#"{"subreddit": "foo"}"#, &names, false), LineRoute::Skip);
    assert_eq!(route_line(r#"{"id": 1}"#, &names, false), LineRoute::Skip);
}

#[test]
fn plan_outputs_split_default_template() {
    let args = filter_args(&["dumps/RC_2025-09.zst"], None, true, &["foo", "bar"]);
    let plan = plan_outputs("dumps/RC_2025-09.zst", &args, 100);
    assert_eq!(plan.probe, Some("RC_2025-09_foo".to_string()));
    assert_eq!(plan.files.len(), 2);
    assert_eq!(plan.files[0].subreddit, Some("foo".to_string()));
    assert_eq!(plan.files[0].filename, "RC_2025-09_foo.zst");
    assert_eq!(plan.files[1].filename, "RC_2025-09_bar.zst");
}

#[test]
fn plan_outputs_combined_default_template() {
    let args = filter_args(&["RS_2025-09.jsonl"], None, false, &["foo"]);
    let plan = plan_outputs("RS_2025-09.jsonl", &args, 100);
    assert_eq!(plan.probe, None);
    assert_eq!(plan.files.len(), 1);
    assert_eq!(plan.files[0].subreddit, None);
    assert_eq!(plan.files[0].filename, "RS_2025-09_filtered.zst");
}

#[test]
fn plan_outputs_user_template() {
    let args = filter_args(&["in/RC.zst"], Some("out/{basename}_{subreddit}_{timestamp}.jsonl"), true, &["foo"]);
    let plan = plan_outputs("in/RC.zst", &args, 42);
    assert_eq!(plan.probe, Some("out/RC_foo_42.jsonl".to_string()));
    assert_eq!(plan.files[0].filename, "out/RC_foo_42.jsonl");
    let plain = filter_args(&["in/RC.zst"], Some("out/data"), false, &["foo"]);
    let plan = plan_outputs("in/RC.zst", &plain, 42);
    assert_eq!(plan.files[0].filename, "out/data");
}

#[test]
fn input_kinds() {
    assert_eq!(input_kind("a/b.zst"), InputKind::Zstd);
    assert_eq!(input_kind("a/b.ZST"), InputKind::Zstd);
    assert_eq!(input_kind("b.JsonL"), InputKind::Jsonl);
    assert_eq!(input_kind("b.txt"), InputKind::Unsupported("txt".to_string()));
    assert_eq!(input_kind("b"), InputKind::Unsupported(String::new()));
    assert!(writes_zstd("x/y.Zst"));
    assert!(!writes_zstd("x/y.jsonl"));
    assert!(!writes_zstd("x/zst"));
}
