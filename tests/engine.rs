use std::path::Path;

use action_format::{
    format_string, is_workflow_extension, ColorChoice, FormatError, FormatterConfig, Printer, Stderr, Stdout,
    StreamChoice,
};

fn config(indent_size: usize, separate_steps: bool, separate_jobs: bool) -> FormatterConfig {
    FormatterConfig {
        indent_size,
        separate_steps,
        separate_jobs,
        ignore: Vec::new(),
    }
}

fn format(input: &str) -> String {
    format_string(input, &FormatterConfig::default()).unwrap()
}

#[test]
fn mixed_tab_then_space_is_rejected() {
    let input = "jobs:\n  build:\n\t runs-on: x\n";
    assert_eq!(
        format_string(input, &FormatterConfig::default()),
        Err(FormatError::MixedIndentation { line: 3 })
    );
}

#[test]
fn mixed_space_then_tab_cites_first_such_line() {
    let input = "a:\n \tb: 1\n\t c: 2\n";
    assert_eq!(
        format_string(input, &FormatterConfig::default()),
        Err(FormatError::MixedIndentation { line: 2 })
    );
}

#[test]
fn mixed_whitespace_on_blank_line_is_rejected() {
    let input = "a: 1\n \t\nb: 2\n";
    assert_eq!(
        format_string(input, &FormatterConfig::default()),
        Err(FormatError::MixedIndentation { line: 2 })
    );
}

#[test]
fn tabs_count_two_columns() {
    let input = "jobs:\n\tbuild:\n\t\truns-on: x\n";
    assert_eq!(format(input), "jobs:\n  build:\n    runs-on: x\n");
}

#[test]
fn empty_document_stays_empty() {
    assert_eq!(format(""), "");
}

#[test]
fn lone_newline_is_kept() {
    assert_eq!(format("\n"), "\n");
}

#[test]
fn missing_final_newline_is_not_added() {
    assert_eq!(format("a:\n    b: 1"), "a:\n  b: 1");
}

#[test]
fn whitespace_only_lines_become_empty() {
    assert_eq!(format("a:\n   \n  b: 1\n"), "a:\n\n  b: 1\n");
}

#[test]
fn four_space_source_to_four_space_target() {
    let input = "jobs:\n  build:\n    steps:\n      - run: a\n      - run: b\n";
    let expected = "jobs:\n    build:\n        steps:\n            - run: a\n\n            - run: b\n";
    assert_eq!(format_string(input, &config(4, true, true)).unwrap(), expected);
}

#[test]
fn gcd_of_two_and_five_makes_every_column_a_level() {
    let input = "a:\n  b:\n     c: 1\n";
    assert_eq!(format(input), "a:\n    b:\n          c: 1\n");
}

#[test]
fn unit_from_gcd_of_four_and_six() {
    let input = "a:\n    b:\n      c: 1\n";
    assert_eq!(format(input), "a:\n    b:\n      c: 1\n");
}

#[test]
fn separation_can_be_switched_off() {
    let input = "jobs:\n  a:\n    steps:\n      - run: x\n      - run: y\n  b:\n    runs-on: z\n";
    assert_eq!(format_string(input, &config(2, false, false)).unwrap(), input);
    let steps_only = "jobs:\n  a:\n    steps:\n      - run: x\n\n      - run: y\n  b:\n    runs-on: z\n";
    assert_eq!(format_string(input, &config(2, true, false)).unwrap(), steps_only);
    let jobs_only = "jobs:\n  a:\n    steps:\n      - run: x\n      - run: y\n\n  b:\n    runs-on: z\n";
    assert_eq!(format_string(input, &config(2, false, true)).unwrap(), jobs_only);
}

#[test]
fn reformatting_twice_changes_nothing() {
    let input = "name: CI\njobs:\n    build:\n        steps:\n            - run: a\n            - run: b\n    test:\n        # note\n        steps:\n            - run: c\n";
    let once = format(input);
    assert_eq!(format(&once), once);
    assert_ne!(once, input);
}

#[test]
fn first_step_and_job_get_no_blank() {
    let input = "jobs:\n  a:\n    steps:\n      - run: x\n";
    assert_eq!(format(input), input);
}

#[test]
fn existing_blank_lines_are_not_doubled() {
    let input = "jobs:\n  a:\n    steps:\n      - run: x\n\n      - run: y\n\n  b:\n    runs-on: z\n";
    let out = format(input);
    assert_eq!(out, input);
    assert!(!out.contains("\n\n\n"));
}

#[test]
fn empty_steps_list_only_rescaled() {
    let input = "jobs:\n    build:\n        steps: []\n    test:\n        runs-on: x\n";
    assert_eq!(
        format(input),
        "jobs:\n  build:\n    steps: []\n\n  test:\n    runs-on: x\n"
    );
}

#[test]
fn steps_section_closes_at_shallower_key() {
    let input = "jobs:\n  a:\n    steps:\n      - run: x\n    env:\n      - y\n      - z\n";
    assert_eq!(format(input), input);
}

#[test]
fn carriage_returns_are_kept() {
    assert_eq!(format("a:\r\n    b: 1\r\n"), "a:\r\n  b: 1\r\n");
}

#[test]
fn ignore_by_whole_path_suffix_or_file_name() {
    let mut c = FormatterConfig::default();
    c.ignore = vec!["ci.yml".to_string()];
    assert!(c.should_ignore(Path::new(".github/workflows/ci.yml")));
    assert!(c.should_ignore(Path::new("a/ci.yml/")));
    assert!(!c.should_ignore(Path::new(".github/workflows/release.yml")));
    c.ignore = vec![".github/workflows/release.yml".to_string()];
    assert!(c.should_ignore(Path::new(".github/workflows/release.yml")));
    assert!(!c.should_ignore(Path::new(".github/workflows/ci.yml")));
    assert!(!FormatterConfig::default().should_ignore(Path::new("ci.yml")));
}

#[test]
fn ignore_matches_given_parts() {
    let mut c = FormatterConfig::default();
    c.ignore = vec!["x.yml".to_string()];
    assert!(c.matches_ignore("dir/other", Some("x.yml")));
    assert!(c.matches_ignore("dir/x.yml", None));
    assert!(!c.matches_ignore("dir/y.yml", Some("y.yml")));
}

#[test]
fn default_config_values() {
    let c = FormatterConfig::default();
    assert_eq!(c.indent_size, 2);
    assert!(c.separate_steps);
    assert!(c.separate_jobs);
    assert!(c.ignore.is_empty());
}

#[test]
fn color_choice_combines() {
    assert_eq!(ColorChoice::Auto.and_colorchoice(StreamChoice::Auto), ColorChoice::Auto);
    assert_eq!(ColorChoice::Auto.and_colorchoice(StreamChoice::AlwaysAnsi), ColorChoice::Always);
    assert_eq!(ColorChoice::Auto.and_colorchoice(StreamChoice::Always), ColorChoice::Always);
    assert_eq!(ColorChoice::Auto.and_colorchoice(StreamChoice::Never), ColorChoice::Never);
    assert_eq!(ColorChoice::Never.and_colorchoice(StreamChoice::Always), ColorChoice::Never);
    assert_eq!(ColorChoice::Always.and_colorchoice(StreamChoice::Never), ColorChoice::Always);
}

#[test]
fn printer_streams() {
    assert_eq!(Printer::Quiet.stdout(), Stdout::Disabled);
    assert_eq!(Printer::Default.stdout(), Stdout::Enabled);
    assert_eq!(Printer::Quiet.stderr(), Stderr);
}

#[test]
fn workflow_extensions() {
    assert!(is_workflow_extension(Some("yml")));
    assert!(is_workflow_extension(Some("yaml")));
    assert!(!is_workflow_extension(Some("yml2")));
    assert!(!is_workflow_extension(Some("json")));
    assert!(!is_workflow_extension(None));
}

#[test]
fn empty_steps_list_opens_no_section() {
    let input = "jobs:\n  build:\n    steps: []\n    services:\n      - a\n      - b\n";
    assert_eq!(format(input), input);
}

#[test]
fn key_followed_by_comment_opens_section() {
    let input = "jobs:\n  a:\n    steps: # all of them\n      - run: x\n      - run: y\n";
    let expected = "jobs:\n  a:\n    steps: # all of them\n      - run: x\n\n      - run: y\n";
    assert_eq!(format(input), expected);
}
