use zerobrew::build::executor::{
    build_failure_message, capture_tail, conclude_build, dirs_of, find_ruby,
    frame_installed_deps, has_dep, installed_deps_json, interpreter_candidates, unique_deps,
    with_flag, BuildExecutor, BuildPhase, BuildRun, DepInfo,
    InstalledDep, Probe, TailBuffer, TAIL_LINES,
};
use zerobrew::build::BuildPlan;
use zerobrew::errors::Error;

fn lines(items: &[&str]) -> Vec<String> {
    items.iter().map(|s| s.to_string()).collect()
}

fn numbered(n: usize) -> Vec<String> {
    (0..n).map(|i| format!("line {i}")).collect()
}

#[test]
fn run_build_includes_stderr_tail_in_error() {
    let err = conclude_build(Some(7), &lines(&[]), &lines(&["boom-from-stderr"])).unwrap_err();
    let message = err.message();
    assert!(message.contains("source build failed"));
    assert!(message.contains("boom-from-stderr"));
    assert!(message.contains("7"));
}

#[test]
fn executor_works_below_the_prefix() {
    let executor = BuildExecutor::new("/opt/zb/prefix".to_string());
    assert_eq!(executor.prefix(), "/opt/zb/prefix");
    assert_eq!(executor.work_root(), "/opt/zb/prefix/tmp/build");
    assert_eq!(executor.work_dir("jq"), "/opt/zb/prefix/tmp/build/jq");
    assert_eq!(
        executor.shim_path("/opt/zb/prefix/tmp/build/jq"),
        "/opt/zb/prefix/tmp/build/jq/zerobrew_shim.rb"
    );
    let relative = BuildExecutor::new("p/".to_string());
    assert_eq!(relative.work_root(), "p/tmp/build");
}

#[test]
fn environment_has_its_ten_variables() {
    let executor = BuildExecutor::new("/p".to_string());
    let plan = BuildPlan {
        formula_name: "foo".to_string(),
        version: "1.0.0".to_string(),
        source_url: "https://example.org/foo.tar.gz".to_string(),
        source_checksum: None,
        cellar_path: "/p/Cellar/foo/1.0.0".to_string(),
    };
    let env = executor.environment(&plan, "/tmp/foo.rb", &vec![]);
    let expected: Vec<(String, String)> = [
        ("FORMULA_NAME", "foo"),
        ("FORMULA_VERSION", "1.0.0"),
        ("PREFIX", "/p"),
        ("CELLAR", "/p/Cellar"),
        ("FORMULA_FILE", "/tmp/foo.rb"),
        ("INSTALLED_DEPS", "{}"),
        ("PATH", "/p/bin:/usr/bin:/bin:/usr/sbin:/sbin"),
        ("CPPFLAGS", ""),
        ("LDFLAGS", ""),
        ("LD_LIBRARY_PATH", ""),
    ]
    .iter()
    .map(|(k, v)| (k.to_string(), v.to_string()))
    .collect();
    assert_eq!(env, expected);
}

#[test]
fn environment_leads_to_the_dependencies() {
    let executor = BuildExecutor::new("/p".to_string());
    let plan = BuildPlan {
        formula_name: "foo".to_string(),
        version: "1.0.0".to_string(),
        source_url: "https://example.org/foo.tar.gz".to_string(),
        source_checksum: None,
        cellar_path: "/p/Cellar/foo/1.0.0".to_string(),
    };
    let deps = vec![dep("zlib", "/p/Cellar/zlib/1.3"), dep("openssl@3", "/p/Cellar/openssl@3/3.2")];
    let env = executor.environment(&plan, "/tmp/foo.rb", &deps);
    assert_eq!(env.len(), 10);
    assert_eq!(
        env[5].1,
        "{\"zlib\":{\"cellar_path\":\"/p/Cellar/zlib/1.3\"},\"openssl@3\":{\"cellar_path\":\"/p/Cellar/openssl@3/3.2\"}}"
    );
    assert_eq!(
        env[6],
        (
            "PATH".to_string(),
            "/p/bin:/p/Cellar/zlib/1.3/bin:/p/Cellar/openssl@3/3.2/bin:/usr/bin:/bin:/usr/sbin:/sbin"
                .to_string()
        )
    );
    assert_eq!(
        env[7],
        (
            "CPPFLAGS".to_string(),
            "-I/p/Cellar/zlib/1.3/include -I/p/Cellar/openssl@3/3.2/include".to_string()
        )
    );
    assert_eq!(
        env[8],
        (
            "LDFLAGS".to_string(),
            "-L/p/Cellar/zlib/1.3/lib -L/p/Cellar/openssl@3/3.2/lib".to_string()
        )
    );
    assert_eq!(
        env[9],
        (
            "LD_LIBRARY_PATH".to_string(),
            "/p/Cellar/zlib/1.3/lib:/p/Cellar/openssl@3/3.2/lib".to_string()
        )
    );
    assert_eq!(dirs_of(&deps, "share"), vec!["/p/Cellar/zlib/1.3/share", "/p/Cellar/openssl@3/3.2/share"]);
    assert_eq!(with_flag("-F", &vec!["a".to_string(), "b".to_string()]), vec!["-Fa", "-Fb"]);
}

fn dep(name: &str, path: &str) -> InstalledDep {
    InstalledDep { name: name.to_string(), info: DepInfo { cellar_path: path.to_string() } }
}

#[test]
fn installed_deps_are_a_json_object() {
    assert_eq!(installed_deps_json(&vec![]), "{}");
    assert_eq!(
        installed_deps_json(&vec![dep("openssl@3", "/p/Cellar/openssl@3/3.2.0")]),
        "{\"openssl@3\":{\"cellar_path\":\"/p/Cellar/openssl@3/3.2.0\"}}"
    );
    let json = installed_deps_json(&vec![dep("a", "/x"), dep("b\"c", "/y\\z\n")]);
    assert_eq!(json, "{\"a\":{\"cellar_path\":\"/x\"},\"b\\\"c\":{\"cellar_path\":\"/y\\\\z\\n\"}}");
    let value: serde_json::Value = serde_json::from_str(&json).unwrap();
    assert_eq!(value["b\"c"]["cellar_path"], "/y\\z\n");
    assert_eq!(value["a"]["cellar_path"], "/x");
}

#[test]
fn framing_takes_literals_as_they_are() {
    assert_eq!(frame_installed_deps(&vec![]), "{}");
    assert_eq!(
        frame_installed_deps(&vec![("\"a\"".to_string(), "\"/x\"".to_string())]),
        "{\"a\":{\"cellar_path\":\"/x\"}}"
    );
    assert_eq!(
        frame_installed_deps(&vec![
            ("N1".to_string(), "P1".to_string()),
            ("N2".to_string(), "P2".to_string()),
            ("N3".to_string(), "P3".to_string()),
        ]),
        "{N1:{\"cellar_path\":P1},N2:{\"cellar_path\":P2},N3:{\"cellar_path\":P3}}"
    );
}

#[test]
fn tail_keeps_the_last_forty_lines() {
    assert_eq!(TAIL_LINES, 40);
    assert_eq!(capture_tail(numbered(0)), numbered(0));
    assert_eq!(capture_tail(numbered(1)), numbered(1));
    assert_eq!(capture_tail(numbered(40)), numbered(40));
    assert_eq!(capture_tail(numbered(41)), numbered(41)[1..].to_vec());
    assert_eq!(capture_tail(numbered(100)), numbered(100)[60..].to_vec());
}

#[test]
fn tail_buffer_drops_the_oldest_when_full() {
    let mut buffer = TailBuffer::new();
    assert_eq!(buffer.len(), 0);
    for (i, line) in numbered(45).into_iter().enumerate() {
        buffer.push(line);
        assert_eq!(buffer.len(), (i + 1).min(40));
    }
    let kept = buffer.into_lines();
    assert_eq!(kept.len(), 40);
    assert_eq!(kept[0], "line 5");
    assert_eq!(kept[39], "line 44");
}

#[test]
fn failure_report_prefers_the_error_stream() {
    let out = lines(&["compiling", "linking"]);
    let err = lines(&["warning: x", "boom"]);
    assert_eq!(
        build_failure_message(Some(7), &out, &err),
        "source build failed (exit code: Some(7))\nwarning: x\nboom"
    );
    assert_eq!(
        build_failure_message(Some(1), &out, &lines(&[])),
        "source build failed (exit code: Some(1))\ncompiling\nlinking"
    );
    assert_eq!(
        build_failure_message(None, &lines(&[]), &lines(&[])),
        "source build failed (exit code: None)"
    );
    assert_eq!(
        build_failure_message(Some(-11), &lines(&[]), &lines(&[""])),
        "source build failed (exit code: Some(-11))\n"
    );
    for code in [Some(0), Some(255), Some(i32::MIN), Some(i32::MAX), None] {
        assert_eq!(
            build_failure_message(code, &lines(&[]), &lines(&[])),
            format!("source build failed (exit code: {:?})", code)
        );
    }
}

#[test]
fn build_succeeds_on_exit_code_zero_only() {
    let out = lines(&["ok"]);
    let err = lines(&["some warning"]);
    assert_eq!(conclude_build(Some(0), &out, &err), Ok(()));
    assert_eq!(
        conclude_build(Some(7), &out, &err),
        Err(Error::ExecutionError {
            message: "source build failed (exit code: Some(7))\nsome warning".to_string()
        })
    );
    assert_eq!(
        conclude_build(None, &out, &lines(&[])),
        Err(Error::ExecutionError {
            message: "source build failed (exit code: None)\nok".to_string()
        })
    );
}

#[test]
fn interpreter_search_takes_the_first_that_answers() {
    let candidates = interpreter_candidates();
    assert_eq!(candidates, vec!["ruby", "/usr/bin/ruby"]);
    assert_eq!(find_ruby(&candidates, &vec![]), Probe::Try("ruby".to_string()));
    assert_eq!(find_ruby(&candidates, &vec![true]), Probe::Found("ruby".to_string()));
    assert_eq!(find_ruby(&candidates, &vec![false]), Probe::Try("/usr/bin/ruby".to_string()));
    assert_eq!(find_ruby(&candidates, &vec![false, true]), Probe::Found("/usr/bin/ruby".to_string()));
    assert_eq!(find_ruby(&candidates, &vec![true, true]), Probe::Found("ruby".to_string()));
    let missing = Probe::Missing(Error::ExecutionError {
        message: "required interpreter not found".to_string(),
    });
    assert_eq!(find_ruby(&candidates, &vec![false, false]), missing);
    assert_eq!(find_ruby(&candidates, &vec![false, false, true]), missing);
    assert_eq!(find_ruby(&vec![], &vec![]), missing);
}

#[test]
fn build_runs_through_its_phases() {
    let mut run = BuildRun::start();
    let mut seen = vec![run.phase];
    while !run.is_finished() {
        run = run.advance(Ok(()));
        seen.push(run.phase);
    }
    assert_eq!(
        seen,
        vec![
            BuildPhase::PrepareWorkDir,
            BuildPhase::FetchSource,
            BuildPhase::WriteShim,
            BuildPhase::EnsureCellar,
            BuildPhase::LocateInterpreter,
            BuildPhase::RunBuild,
            BuildPhase::Materialize,
            BuildPhase::Cleanup,
            BuildPhase::Finished,
        ]
    );
    assert_eq!(run.into_result(), Ok(()));
}

#[test]
fn failed_build_still_cleans_up() {
    let boom = Error::ExecutionError { message: "boom".to_string() };
    for failing in 0..7 {
        let mut run = BuildRun::start();
        for _ in 0..failing {
            run = run.advance(Ok(()));
        }
        run = run.advance(Err(boom.clone()));
        assert_eq!(run.phase, BuildPhase::Cleanup);
        assert_eq!(run.failure, Some(boom.clone()));
        run = run.advance(Err(Error::FileError { message: "cannot remove".to_string() }));
        assert!(run.is_finished());
        let done = run.advance(Ok(()));
        assert!(done.is_finished());
        assert_eq!(done.into_result(), Err(boom.clone()));
    }
}

#[test]
fn phase_failures_have_their_prefixes() {
    let message = |phase: BuildPhase| match phase.io_failure("denied") {
        Error::FileError { message } => message,
        other => panic!("expected file error, got {other:?}"),
    };
    assert_eq!(message(BuildPhase::PrepareWorkDir), "failed to create work directory: denied");
    assert_eq!(message(BuildPhase::WriteShim), "failed to write ruby shim: denied");
    assert_eq!(message(BuildPhase::EnsureCellar), "failed to create cellar directory: denied");
    assert_eq!(message(BuildPhase::RunBuild), "denied");
    assert_eq!(BuildPhase::RunBuild.next(), BuildPhase::Materialize);
    assert_eq!(BuildPhase::Finished.next(), BuildPhase::Finished);
}

#[test]
fn dependency_listed_twice_counts_once() {
    let deps = vec![dep("zlib", "/p/Cellar/zlib/1.3"), dep("curl", "/c"), dep("zlib", "/other")];
    assert_eq!(unique_deps(&deps), vec![dep("zlib", "/p/Cellar/zlib/1.3"), dep("curl", "/c")]);
    assert_eq!(unique_deps(&vec![]), vec![]);
    assert!(has_dep(&deps, "curl"));
    assert!(!has_dep(&deps, "Curl"));
    assert_eq!(
        installed_deps_json(&deps),
        "{\"zlib\":{\"cellar_path\":\"/p/Cellar/zlib/1.3\"},\"curl\":{\"cellar_path\":\"/c\"}}"
    );
    let executor = BuildExecutor::new("/p".to_string());
    let plan = BuildPlan {
        formula_name: "foo".to_string(),
        version: "1".to_string(),
        source_url: "u".to_string(),
        source_checksum: None,
        cellar_path: "/p/Cellar/foo/1".to_string(),
    };
    let env = executor.environment(&plan, "/tmp/foo.rb", &deps);
    assert_eq!(env[5].1, installed_deps_json(&deps));
    assert_eq!(env[9].1, "/p/Cellar/zlib/1.3/lib:/c/lib");
    let value: serde_json::Value = serde_json::from_str(&env[5].1).unwrap();
    assert_eq!(value.as_object().unwrap().len(), 2);
}
