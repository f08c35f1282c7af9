use action_format::{format_string, ExitStatus, FileAction, FormatterConfig};

/// Formats one file as a run over it does: returns the action taken and
/// the formatted text.
fn process(content: &str, check: bool, diff: bool) -> (FileAction, String) {
    let formatted = format_string(content, &FormatterConfig::default()).expect("formats");
    let action = FileAction::for_file(content != formatted, check, diff);
    (action, formatted)
}

#[test]
fn test_check_mode_no_changes() {
    let input = r"name: CI
on: push
jobs:
  build:
    runs-on: ubuntu-latest
    steps:
      - uses: actions/checkout@v4

      - name: Build
        run: cargo build
";
    let (action, formatted) = process(input, true, false);
    assert_eq!(formatted, input);
    assert_eq!(action, FileAction::Unchanged);
    let status = ExitStatus::of_run(false, true, action.counts_as_changed());
    assert_eq!(status, ExitStatus::Success);
    assert_eq!(status.code(), 0);
}

#[test]
fn test_check_mode_with_changes() {
    let input = r"name: CI
on: push
jobs:
  build:
    runs-on: ubuntu-latest
    steps:
      - uses: actions/checkout@v4
      - name: Build
        run: cargo build
";
    let (action, formatted) = process(input, true, false);
    assert_ne!(formatted, input);
    assert_eq!(action, FileAction::ReportOnly);
    let status = ExitStatus::of_run(false, true, action.counts_as_changed());
    assert_eq!(status, ExitStatus::Failure);
    assert_eq!(status.code(), 1);
}

#[test]
fn test_format_multiple_workflow_files() {
    let a_ci = r"name: CI
on: push
jobs:
  build:
    runs-on: ubuntu-latest
    steps:
      - uses: actions/checkout@v4
      - name: Build
        run: cargo build
";
    let b_release = r"name: Release
on:
  push:
    tags: ['v*']
jobs:
  release:
    runs-on: ubuntu-latest
    steps:
      - uses: actions/checkout@v4
      - name: Release
        run: cargo publish
";
    let mut any_changed = false;
    for input in [a_ci, b_release] {
        let (action, _) = process(input, false, false);
        assert_eq!(action, FileAction::Write);
        any_changed |= action.counts_as_changed();
    }
    let status = ExitStatus::of_run(false, false, any_changed);
    assert_eq!(status, ExitStatus::Success);
    assert_eq!(status.code(), 0);
}

#[test]
fn test_diff_mode() {
    let input = r"name: CI
on: push
jobs:
  build:
    runs-on: ubuntu-latest
    steps:
      - uses: actions/checkout@v4
      - name: Build
        run: cargo build
";
    let (action, formatted) = process(input, false, true);
    assert_eq!(action, FileAction::ShowDiff);
    let new_lines: Vec<&str> = formatted.lines().collect();
    assert_eq!(new_lines.len(), 10);
    assert_eq!(new_lines[6], "      - uses: actions/checkout@v4");
    assert_eq!(new_lines[7], "");
    assert_eq!(new_lines[8], "      - name: Build");
    assert_eq!(new_lines[9], "        run: cargo build");
    let status = ExitStatus::of_run(false, false, action.counts_as_changed());
    assert_eq!(status.code(), 0);
}

#[test]
fn error_status_wins() {
    assert_eq!(ExitStatus::of_run(true, true, true), ExitStatus::Error);
    assert_eq!(ExitStatus::Error.code(), 2);
    assert_eq!(ExitStatus::of_run(false, false, true), ExitStatus::Success);
}
