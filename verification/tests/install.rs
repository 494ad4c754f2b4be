use zerobrew::build::BuildPlan;
use zerobrew::bundle::default_manifest;
use zerobrew::commands::gc::{execute as collect, GcActions};
use zerobrew::commands::info::store_key_prefix;
use zerobrew::commands::install::{execute as prepare, finish_keg, request_keg, KegRequest};
use zerobrew::linker::Prefix;
use zerobrew::scheduler::SingleFlight;
use zerobrew::store::GcReport;
use zerobrew::errors::Error;
use zerobrew::formula::deps::ResolveMode;
use zerobrew::formula::resolve::{find_place, plan_needs, resolve_closure};
use zerobrew::formula::types::{
    BottleFile, Formula, OsFamily, Platform, PlatformTag, Version,
};
use zerobrew::install::{
    build_failure, check_installed, first_step, install_method, next_step, store_key_input, verify_digest,
    version_string, InstallMethod, Step,
};
use zerobrew::scheduler::Scheduler;
use zerobrew::store::{InstalledRecord, Store};

fn strings(items: &[&str]) -> Vec<String> {
    items.iter().map(|s| s.to_string()).collect()
}

fn formula(name: &str, runtime: &[&str]) -> Formula {
    Formula {
        name: name.to_string(),
        version: Version { upstream: "1.0".to_string(), revision: 0, rebuild: 0 },
        source_url: None,
        source_checksum: None,
        bottles: vec![BottleFile {
            tag: "arm64_sonoma".to_string(),
            url: format!("https://bottles.example/{name}.tar.gz"),
            sha256: format!("sha-{name}"),
            rebuild: 1,
        }],
        runtime: strings(runtime),
        build: vec![],
        recommended: vec![],
        optional: vec![],
        test: vec![],
        uses_from_macos: vec![],
        keg_only: None,
        license: None,
        caveats: None,
    }
}

fn mac() -> Platform {
    Platform {
        tag: PlatformTag {
            os_family: OsFamily::Macos,
            os_version: "sonoma".to_string(),
            cpu_arch: "arm64".to_string(),
        },
        previous_os_version: None,
    }
}

fn record(name: &str, key: &str) -> InstalledRecord {
    InstalledRecord {
        name: name.to_string(),
        version: "1.0".to_string(),
        store_key: key.to_string(),
        installed_at: 0,
        explicit: true,
        requested_deps: vec![],
        keg_only: false,
        links: vec![],
    }
}

#[test]
fn version_names_the_cellar_directory() {
    let plain = Version { upstream: "1.7.1".to_string(), revision: 0, rebuild: 3 };
    assert_eq!(version_string(&plain), "1.7.1");
    let revised = Version { upstream: "1.7.1".to_string(), revision: 12, rebuild: 0 };
    assert_eq!(version_string(&revised), "1.7.1_12");
}

#[test]
fn bottle_is_taken_where_one_is_selected() {
    let jq = formula("jq", &[]);
    let method = install_method(&jq, &mac(), "/p").unwrap();
    assert_eq!(
        method,
        InstallMethod::Bottle {
            url: "https://bottles.example/jq.tar.gz".to_string(),
            sha256: "sha-jq".to_string(),
            rebuild: 1,
        }
    );
    assert_eq!(method.checksum_text(), "sha-jq");
    assert_eq!(store_key_input(&jq, &method, &mac()), "jq\n1.0_0_0\nsha-jq\narm64_sonoma");
}

#[test]
fn source_is_built_where_no_bottle_fits() {
    let mut tool = formula("tool", &[]);
    tool.bottles = vec![];
    tool.version.revision = 2;
    tool.source_url = Some("https://src.example/tool.tar.gz".to_string());
    tool.source_checksum = Some("src-sum".to_string());
    let method = install_method(&tool, &mac(), "/p").unwrap();
    assert_eq!(
        method,
        InstallMethod::Source(BuildPlan {
            formula_name: "tool".to_string(),
            version: "1.0_2".to_string(),
            source_url: "https://src.example/tool.tar.gz".to_string(),
            source_checksum: Some("src-sum".to_string()),
            cellar_path: "/p/Cellar/tool/1.0_2".to_string(),
        })
    );
    assert_eq!(method.checksum_text(), "src-sum");
    tool.source_checksum = None;
    let without = install_method(&tool, &mac(), "/p").unwrap();
    assert_eq!(without.checksum_text(), "");
    assert_eq!(store_key_input(&tool, &without, &mac()), "tool\n1.0_2_0\n\narm64_sonoma");
}

#[test]
fn neither_bottle_nor_source_is_unsupported() {
    let mut odd = formula("odd", &[]);
    odd.bottles = vec![];
    assert_eq!(
        install_method(&odd, &mac(), "/p"),
        Err(Error::PlatformUnsupported {
            name: "odd".to_string(),
            platform_tag: "arm64_sonoma".to_string(),
        })
    );
}

#[test]
fn digest_has_to_match_where_one_is_expected() {
    assert_eq!(verify_digest("u", None, "abc"), Ok(()));
    assert_eq!(verify_digest("u", Some("abc"), "abc"), Ok(()));
    assert_eq!(
        verify_digest("https://x/y", Some("abc"), "abd"),
        Err(Error::ChecksumMismatch {
            url: "https://x/y".to_string(),
            expected: "abc".to_string(),
            actual: "abd".to_string(),
        })
    );
    assert!(verify_digest("u", Some("ABC"), "abc").is_err());
    assert!(verify_digest("u", Some(""), "abc").is_err());
}

#[test]
fn failed_execution_is_a_build_error_of_the_formula() {
    let failure = Error::ExecutionError {
        message: "source build failed (exit code: Some(7))\nboom-from-stderr".to_string(),
    };
    let err = build_failure("foo", failure);
    assert_eq!(
        err,
        Error::BuildError {
            name: "foo".to_string(),
            tail: "source build failed (exit code: Some(7))\nboom-from-stderr".to_string(),
        }
    );
    let message = err.message();
    assert!(message.contains("boom-from-stderr"));
    assert!(message.contains("7"));
    assert!(message.contains("foo"));
    let other = Error::NetworkError { url: "u".to_string(), detail: "d".to_string() };
    assert_eq!(build_failure("foo", other.clone()), other);
}

#[test]
fn installed_formula_is_left_alone() {
    let store = Store::open(strings(&["k1", "k2"]), vec![], vec![record("foo", "k1")]).unwrap();
    assert_eq!(first_step(&store, "foo", "k1", false, false), Step::Done);
    assert_eq!(first_step(&store, "foo", "k1", true, true), Step::Done);
    assert_eq!(first_step(&store, "foo", "k2", false, false), Step::Link);
    assert_eq!(first_step(&store, "foo", "k2", false, true), Step::Record);
    assert_eq!(first_step(&store, "foo", "k3", false, false), Step::Fetch);
    assert_eq!(first_step(&store, "foo", "k3", true, false), Step::Build);
    assert_eq!(first_step(&store, "bar", "k1", false, false), Step::Link);
    assert_eq!(first_step(&store, "bar", "k9", true, true), Step::Build);
}

#[test]
fn steps_follow_each_other() {
    let walk = |mut step: Step, no_link: bool| {
        let mut seen = vec![step];
        while step != Step::Done {
            step = next_step(step, no_link);
            seen.push(step);
        }
        seen
    };
    assert_eq!(
        walk(Step::Fetch, false),
        vec![Step::Fetch, Step::Unpack, Step::Commit, Step::Link, Step::Record, Step::Done]
    );
    assert_eq!(
        walk(Step::Build, false),
        vec![Step::Build, Step::Commit, Step::Link, Step::Record, Step::Done]
    );
    assert_eq!(
        walk(Step::Fetch, true),
        vec![Step::Fetch, Step::Unpack, Step::Commit, Step::Record, Step::Done]
    );
    assert_eq!(next_step(Step::Done, false), Step::Done);
}

#[test]
fn plan_feeds_the_scheduler() {
    let index = vec![
        formula("app", &["zlib", "curl", "zlib"]),
        formula("zlib", &[]),
        formula("curl", &["zlib"]),
    ];
    let plan = resolve_closure(&index, &strings(&["app"]), ResolveMode::Install, &mac()).unwrap();
    let names: Vec<&str> = plan.iter().map(|n| n.name.as_str()).collect();
    assert_eq!(names, vec!["zlib", "curl", "app"]);
    assert_eq!(find_place(&plan, 2), 1);
    assert_eq!(find_place(&plan, 7), 3);
    let needs = plan_needs(&index, &plan, ResolveMode::Install, &mac());
    assert_eq!(needs, vec![vec![], vec![0], vec![0, 1, 0]]);
    let mut scheduler = Scheduler::new(needs, 4).unwrap();
    assert_eq!(scheduler.next(), Some(0));
    assert_eq!(scheduler.next(), None);
    scheduler.finish(0, true);
    assert_eq!(scheduler.next(), Some(1));
    assert_eq!(scheduler.next(), None);
    scheduler.finish(1, true);
    assert_eq!(scheduler.next(), Some(2));
    scheduler.finish(2, true);
    assert!(scheduler.is_drained());
}

#[test]
fn shown_key_is_twelve_characters() {
    assert_eq!(store_key_prefix("0123456789abcdef0123"), "0123456789ab");
    assert_eq!(store_key_prefix("0123456789ab"), "0123456789ab");
    assert_eq!(default_manifest(), "Brewfile");
}

#[test]
fn same_keg_again_is_signalled() {
    let store = Store::open(strings(&["k1", "k2"]), vec![], vec![record("foo", "k1")]).unwrap();
    assert_eq!(
        check_installed(&store, "foo", "k1"),
        Err(Error::AlreadyInstalled { name: "foo".to_string(), version: "1.0".to_string() })
    );
    assert_eq!(check_installed(&store, "foo", "k2"), Ok(()));
    assert_eq!(check_installed(&store, "bar", "k1"), Ok(()));
}

#[test]
fn every_error_says_what_happened() {
    let s = |t: &str| t.to_string();
    let cases = vec![
        (Error::FormulaNotFound { name: s("jq") }, "formula not found: jq"),
        (
            Error::PlatformUnsupported { name: s("jq"), platform_tag: s("arm64_sonoma") },
            "no bottle or source for jq on arm64_sonoma",
        ),
        (
            Error::DependencyCycle { names: strings(&["a", "b", "c"]) },
            "dependency cycle: a, b, c",
        ),
        (Error::DependencyCycle { names: vec![] }, "dependency cycle: "),
        (
            Error::ChecksumMismatch { url: s("u"), expected: s("e"), actual: s("a") },
            "checksum mismatch for u: expected e, got a",
        ),
        (Error::NetworkError { url: s("u"), detail: s("timeout") }, "network error for u: timeout"),
        (
            Error::ExtractionError { archive: s("x.tar.gz"), detail: s("truncated") },
            "failed to extract x.tar.gz: truncated",
        ),
        (Error::BuildError { name: s("foo"), tail: s("boom") }, "build of foo failed: boom"),
        (Error::ExecutionError { message: s("no ruby") }, "no ruby"),
        (
            Error::ConflictedLink { path: s("/p/bin/foo"), existing_owner: s("bar") },
            "link conflict at /p/bin/foo: owned by bar",
        ),
        (Error::StoreCorruption { message: s("broken") }, "broken"),
        (Error::FileError { message: s("denied") }, "denied"),
        (
            Error::AlreadyInstalled { name: s("jq"), version: s("1.7") },
            "jq 1.7 is already installed",
        ),
    ];
    for (error, text) in cases {
        assert_eq!(error.message(), text);
    }
}

#[test]
fn install_command_prepares_plan_and_scheduler() {
    let index = vec![formula("app", &["zlib"]), formula("zlib", &[])];
    let run = prepare(&index, &strings(&["app"]), ResolveMode::Install, &mac(), 2).unwrap();
    let names: Vec<&str> = run.plan.iter().map(|n| n.name.as_str()).collect();
    assert_eq!(names, vec!["zlib", "app"]);
    let mut scheduler = run.scheduler;
    assert_eq!(scheduler.len(), 2);
    assert_eq!(scheduler.next(), Some(0));
    assert_eq!(scheduler.next(), None);
    assert!(scheduler.finish(0, true));
    assert_eq!(scheduler.next(), Some(1));
    assert_eq!(
        prepare(&index, &strings(&["app"]), ResolveMode::Install, &mac(), 0).err(),
        Some(Error::ExecutionError { message: "concurrency must be at least 1".to_string() })
    );
    assert_eq!(
        prepare(&index, &strings(&["nope"]), ResolveMode::Install, &mac(), 0).err(),
        Some(Error::FormulaNotFound { name: "nope".to_string() })
    );
}

#[test]
fn keg_is_unpacked_once_for_many_requests() {
    for ok in [true, false] {
        let mut store = Store::new();
        let mut flights = SingleFlight::new();
        let told: Vec<KegRequest> =
            (0..6).map(|_| request_keg(&mut store, &mut flights, "K")).collect();
        assert_eq!(told[0], KegRequest::Lead);
        assert_eq!(told.iter().filter(|t| **t == KegRequest::Lead).count(), 1);
        assert_eq!(told.iter().filter(|t| **t == KegRequest::Follow).count(), 5);
        assert!(!store.contains("K"));
        assert_eq!(finish_keg(&mut store, &mut flights, "K", ok), Ok(()));
        assert_eq!(store.contains("K"), ok);
        let again = request_keg(&mut store, &mut flights, "K");
        assert_eq!(again, if ok { KegRequest::Present } else { KegRequest::Lead });
    }
    let mut store = Store::new();
    let mut flights = SingleFlight::new();
    assert_eq!(
        finish_keg(&mut store, &mut flights, "never", true),
        Err(Error::StoreCorruption { message: "nothing is staged for never".to_string() })
    );
}

#[test]
fn gc_command_unlinks_what_it_drops() {
    let mut orphan = record("orphan", "ko");
    orphan.explicit = false;
    let mut store =
        Store::open(strings(&["kf", "ko", "stale"]), vec![], vec![record("foo", "kf"), orphan])
            .unwrap();
    let mut prefix = Prefix::new();
    prefix.link("foo", &strings(&["/p/bin/foo"]), &vec![]).unwrap();
    prefix.link("orphan", &strings(&["/p/bin/o1", "/p/bin/o2"]), &vec![]).unwrap();
    let actions = collect(&mut store, &mut prefix);
    assert_eq!(
        actions,
        GcActions {
            unlink: strings(&["/p/bin/o1", "/p/bin/o2"]),
            report: GcReport {
                dropped: strings(&["orphan"]),
                removed: strings(&["ko", "stale"]),
                pruned: vec![],
            },
        }
    );
    assert_eq!(prefix.owner("/p/bin/o1"), None);
    assert_eq!(prefix.owner("/p/bin/foo"), Some("foo"));
    for r in store.list_records() {
        assert!(store.contains(&r.store_key));
    }
    assert_eq!(store.list(), strings(&["kf"]));
}
