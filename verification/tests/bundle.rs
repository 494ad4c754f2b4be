use zerobrew::bundle::{
    check_dump_target, dump_manifest, dump_write_failure, load_manifest, manifest_read_failure,
    parse_brewfile_entry, parse_manifest, parse_quoted_directive,
};
use zerobrew::errors::Error;

fn names(items: &[&str]) -> Vec<String> {
    items.iter().map(|s| s.to_string()).collect()
}

#[test]
fn load_manifest_parses_entries_ignoring_whitespace_and_comments() {
    let contents = "# comment\n\njq\nwget\njq\n   git  \n# another comment\n";
    let entries = load_manifest("Brewfile", contents).unwrap();
    assert_eq!(entries, vec!["jq", "wget", "git"]);
}

#[test]
fn load_manifest_handles_inline_comments() {
    let contents = "jq # inline comment\nwget# no space\n  git  # with spaces  \n";
    let entries = load_manifest("Brewfile", contents).unwrap();
    assert_eq!(entries, vec!["jq", "wget", "git"]);
}

#[test]
fn load_manifest_errors_when_only_comments() {
    let contents = "# nothing here\n   # still nothing\n";
    let err = load_manifest("Brewfile", contents).unwrap_err();
    match err {
        Error::FileError { message } => {
            assert!(message.contains("did not contain any formulas"))
        }
        other => panic!("expected file error, got {other:?}"),
    }
}

#[test]
fn load_manifest_errors_when_missing() {
    let err = manifest_read_failure("missing", "No such file or directory (os error 2)");
    match err {
        Error::FileError { message } => {
            assert!(message.contains("failed to read manifest"))
        }
        other => panic!("expected file error, got {other:?}"),
    }
}

#[test]
fn load_manifest_parses_brewfile_cask_and_brew_entries() {
    let contents = "tap \"homebrew/cask\"\nbrew \"wget\"\ncask \"docker-desktop\"\n\n";
    let entries = load_manifest("Brewfile", contents).unwrap();
    assert_eq!(entries, vec!["wget", "cask:docker-desktop"]);
}

#[test]
fn parse_brewfile_entry_handles_brew_directive() {
    assert_eq!(parse_brewfile_entry("brew \"jq\""), Some("jq".to_string()));
    assert_eq!(
        parse_brewfile_entry("brew 'wget'"),
        Some("wget".to_string())
    );
}

#[test]
fn parse_brewfile_entry_handles_cask_directive() {
    assert_eq!(
        parse_brewfile_entry("cask \"docker\""),
        Some("cask:docker".to_string())
    );
}

#[test]
fn parse_brewfile_entry_skips_tap_directive() {
    assert_eq!(parse_brewfile_entry("tap \"homebrew/core\""), None);
}

#[test]
fn manifest_with_comment_brew_cask_and_tap() {
    let contents = "# comment\nbrew \"wget\"\ncask \"docker\"\ntap \"x\"";
    assert_eq!(parse_manifest(contents), vec!["wget", "cask:docker"]);
}

#[test]
fn empty_manifest_is_a_file_error() {
    let err = load_manifest("Brewfile", "").unwrap_err();
    assert_eq!(
        err,
        Error::FileError { message: "manifest Brewfile did not contain any formulas".to_string() }
    );
    assert!(matches!(load_manifest("b", "\n\n  \n"), Err(Error::FileError { .. })));
}

#[test]
fn manifest_read_failure_names_path_and_cause() {
    assert_eq!(
        manifest_read_failure("/tmp/b", "denied"),
        Error::FileError { message: "failed to read manifest /tmp/b: denied".to_string() }
    );
}

#[test]
fn quoted_directive_needs_directive_and_both_quotes() {
    assert_eq!(parse_quoted_directive("brew \"jq\"", "brew"), Some("jq"));
    assert_eq!(parse_quoted_directive("brew\"jq\" extra", "brew"), Some("jq"));
    assert_eq!(parse_quoted_directive("brew   'a b'", "brew"), Some("a b"));
    assert_eq!(parse_quoted_directive("brew \"jq", "brew"), None);
    assert_eq!(parse_quoted_directive("brew 'jq\"", "brew"), None);
    assert_eq!(parse_quoted_directive("brew jq", "brew"), None);
    assert_eq!(parse_quoted_directive("brew", "brew"), None);
    assert_eq!(parse_quoted_directive("brew   ", "brew"), None);
    assert_eq!(parse_quoted_directive("cask \"x\"", "brew"), None);
    assert_eq!(parse_quoted_directive("brew \"\"", "brew"), Some(""));
    assert_eq!(parse_quoted_directive("brew \u{a0}\"é\u{3000}\"", "brew"), Some("é\u{3000}"));
}

#[test]
fn entry_that_is_no_directive_is_taken_verbatim() {
    assert_eq!(parse_brewfile_entry("jq"), Some("jq".to_string()));
    assert_eq!(parse_brewfile_entry("brewery"), Some("brewery".to_string()));
    assert_eq!(parse_brewfile_entry("brew \"jq"), Some("brew \"jq".to_string()));
    assert_eq!(parse_brewfile_entry("tap"), Some("tap".to_string()));
    assert_eq!(parse_brewfile_entry("tapioca"), Some("tapioca".to_string()));
    assert_eq!(parse_brewfile_entry("tap x"), None);
    assert_eq!(parse_brewfile_entry("cask'a'"), Some("cask:a".to_string()));
    assert_eq!(parse_brewfile_entry(""), Some("".to_string()));
}

#[test]
fn manifest_keeps_first_occurrence_only() {
    let contents = "b\na\nbrew \"b\"\ncask \"a\"\na\ncask 'a'\n";
    assert_eq!(parse_manifest(contents), vec!["b", "a", "cask:a"]);
}

#[test]
fn manifest_lines_may_end_in_carriage_return() {
    assert_eq!(parse_manifest("jq\r\nbrew \"wget\"\r\n#x\r\n\r\n"), vec!["jq", "wget"]);
    assert_eq!(parse_manifest("jq\r"), vec!["jq"]);
}

#[test]
fn manifest_agrees_with_a_plain_reading() {
    let samples = [
        "",
        "\n",
        "a",
        "a\n",
        "a\n\nb",
        " a # b\n#c\n d\t\n",
        "brew \"x\" # y\ncask \"z\"\ntap \"t\"\nbrew 'q'\n",
        "x\u{2003}\n\u{2003}y\n",
    ];
    for sample in samples {
        let mut expected: Vec<String> = Vec::new();
        for line in sample.lines() {
            let entry = line.split('#').next().unwrap_or("").trim();
            if entry.is_empty() {
                continue;
            }
            if let Some(name) = parse_brewfile_entry(entry) {
                if !expected.contains(&name) {
                    expected.push(name);
                }
            }
        }
        assert_eq!(parse_manifest(sample), expected, "sample {sample:?}");
    }
}

#[test]
fn dump_writes_one_brew_line_per_name() {
    assert_eq!(dump_manifest(&names(&[])), "");
    assert_eq!(dump_manifest(&names(&["jq"])), "brew \"jq\"\n");
    assert_eq!(dump_manifest(&names(&["jq", "wget"])), "brew \"jq\"\nbrew \"wget\"\n");
}

#[test]
fn dump_then_parse_gives_the_names_back() {
    let installed = names(&["wget", "jq", "openssl@3", "cask:docker", "a b", "tap x"]);
    let text = dump_manifest(&installed);
    assert_eq!(load_manifest("Brewfile", &text).unwrap(), installed);
    let repeated = names(&["jq", "wget", "jq"]);
    assert_eq!(parse_manifest(&dump_manifest(&repeated)), names(&["jq", "wget"]));
}

#[test]
fn dump_target_is_guarded_unless_forced() {
    assert_eq!(check_dump_target("Brewfile", false, false), Ok(()));
    assert_eq!(check_dump_target("Brewfile", false, true), Ok(()));
    assert_eq!(check_dump_target("Brewfile", true, true), Ok(()));
    assert_eq!(
        check_dump_target("Brewfile", true, false),
        Err(Error::FileError {
            message: "file Brewfile already exists (use --force to overwrite)".to_string()
        })
    );
}

#[test]
fn dump_write_failure_names_path_and_cause() {
    assert_eq!(
        dump_write_failure("out/Brewfile", "disk full"),
        Error::FileError { message: "failed to write out/Brewfile: disk full".to_string() }
    );
}
