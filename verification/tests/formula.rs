use zerobrew::errors::Error;
use zerobrew::formula::bottle::{find_tag, has_bottle, select_bottle, SelectedBottle};
use zerobrew::formula::deps::{
    build_deps, builds_from_source, is_unsupported, runtime_deps, ResolveMode,
};
use zerobrew::formula::names::{
    find_formula, get, index_names, least_name, name_before, normalize, sort_names,
};
use zerobrew::formula::resolve::{resolve_closure, PlannedNode, Via};
use zerobrew::formula::types::{
    catalog_key, host_platform, macos_name, BottleFile, Formula, KegOnly, MacosUse, OsFamily,
    Platform, PlatformTag, UsesFromMacos, Version,
};

fn strings(items: &[&str]) -> Vec<String> {
    items.iter().map(|s| s.to_string()).collect()
}

fn bottle(tag: &str) -> BottleFile {
    BottleFile {
        tag: tag.to_string(),
        url: format!("https://bottles.example/{tag}.tar.gz"),
        sha256: format!("sha-{tag}"),
        rebuild: 0,
    }
}

fn formula(name: &str, runtime: &[&str]) -> Formula {
    Formula {
        name: name.to_string(),
        version: Version { upstream: "1.0".to_string(), revision: 0, rebuild: 0 },
        source_url: None,
        source_checksum: None,
        bottles: vec![bottle("arm64_sonoma")],
        runtime: strings(runtime),
        build: vec![],
        recommended: vec![],
        optional: vec![],
        test: vec![],
        uses_from_macos: vec![],
        keg_only: None,
        license: None,
        caveats: None,
    }
}

fn source_only(name: &str, runtime: &[&str], build: &[&str]) -> Formula {
    let mut f = formula(name, runtime);
    f.bottles = vec![];
    f.source_url = Some(format!("https://src.example/{name}.tar.gz"));
    f.build = strings(build);
    f
}

fn mac() -> Platform {
    Platform {
        tag: PlatformTag {
            os_family: OsFamily::Macos,
            os_version: "sonoma".to_string(),
            cpu_arch: "arm64".to_string(),
        },
        previous_os_version: Some("ventura".to_string()),
    }
}

fn linux() -> Platform {
    Platform {
        tag: PlatformTag {
            os_family: OsFamily::Linux,
            os_version: "linux".to_string(),
            cpu_arch: "x86_64".to_string(),
        },
        previous_os_version: None,
    }
}

fn names_of(nodes: &[PlannedNode]) -> Vec<&str> {
    nodes.iter().map(|n| n.name.as_str()).collect()
}

fn file_of(tag: &str) -> SelectedBottle {
    let b = bottle(tag);
    SelectedBottle::Bottle { url: b.url, sha256: b.sha256, rebuild: b.rebuild }
}

#[test]
fn catalog_key_joins_architecture_and_system() {
    assert_eq!(catalog_key("arm64", "sonoma"), "arm64_sonoma");
    assert_eq!(mac().tag.catalog_key(), "arm64_sonoma");
    assert_eq!(linux().tag.catalog_key(), "x86_64_linux");
}

#[test]
fn bottle_of_the_exact_tag_wins() {
    let mut f = formula("jq", &[]);
    f.bottles = vec![bottle("all"), bottle("arm64_ventura"), bottle("arm64_sonoma")];
    assert_eq!(select_bottle(&f, &mac()), file_of("arm64_sonoma"));
    assert!(has_bottle(&f, &mac()));
    assert_eq!(find_tag(&f.bottles, "arm64_sonoma"), 2);
    assert_eq!(find_tag(&f.bottles, "x86_64_linux"), 3);
}

#[test]
fn older_system_is_taken_only_beside_an_all_bottle() {
    let mut f = formula("jq", &[]);
    f.bottles = vec![bottle("arm64_ventura"), bottle("all")];
    assert_eq!(select_bottle(&f, &mac()), file_of("arm64_ventura"));
    f.bottles = vec![bottle("arm64_ventura")];
    assert_eq!(select_bottle(&f, &mac()), SelectedBottle::Unsupported);
    f.source_url = Some("https://src.example/jq.tar.gz".to_string());
    assert_eq!(select_bottle(&f, &mac()), SelectedBottle::NoBottleBuildFromSource);
    assert!(!has_bottle(&f, &mac()));
}

#[test]
fn all_bottle_fits_every_platform() {
    let mut f = formula("ca-certificates", &[]);
    f.bottles = vec![bottle("x86_64_monterey"), bottle("all")];
    assert_eq!(select_bottle(&f, &mac()), file_of("all"));
    assert_eq!(select_bottle(&f, &linux()), file_of("all"));
}

#[test]
fn first_bottle_of_a_tag_counts() {
    let mut f = formula("jq", &[]);
    let mut second = bottle("arm64_sonoma");
    second.url = "https://elsewhere.example/x".to_string();
    second.rebuild = 3;
    f.bottles = vec![bottle("arm64_sonoma"), second];
    assert_eq!(select_bottle(&f, &mac()), file_of("arm64_sonoma"));
}

#[test]
fn no_tag_match_and_no_source_is_unsupported() {
    let mut f = formula("jq", &[]);
    f.bottles = vec![bottle("x86_64_linux")];
    assert_eq!(select_bottle(&f, &mac()), SelectedBottle::Unsupported);
    assert!(is_unsupported(&f, &mac()));
    assert!(!builds_from_source(&f, &mac()));
    f.bottles = vec![];
    assert_eq!(select_bottle(&f, &mac()), SelectedBottle::Unsupported);
    assert_eq!(select_bottle(&f, &linux()), SelectedBottle::Unsupported);
}

#[test]
fn no_tag_match_with_source_builds_from_source() {
    let f = source_only("jq", &[], &[]);
    assert_eq!(select_bottle(&f, &mac()), SelectedBottle::NoBottleBuildFromSource);
    assert!(builds_from_source(&f, &mac()));
    assert!(!is_unsupported(&f, &mac()));
}

#[test]
fn names_are_ordered_by_code_point() {
    let v = |s: &str| s.chars().collect::<Vec<char>>();
    let samples = ["", "a", "ab", "b", "B", "a-b", "a_b", "é", "z", "zz", "openssl@3", "openssl"];
    for x in samples {
        for y in samples {
            assert_eq!(name_before(&v(x), &v(y)), x < y, "{x:?} {y:?}");
        }
    }
}

#[test]
fn lookup_is_by_lower_case_name() {
    let index = vec![formula("jq", &[]), formula("wget", &[]), formula("jq", &["wget"])];
    assert_eq!(normalize("WgEt-É"), "wget-É".chars().collect::<Vec<char>>());
    let names = index_names(&index);
    assert_eq!(names.len(), 3);
    assert_eq!(find_formula(&index, &names, "wget"), Some(1));
    assert_eq!(find_formula(&index, &names, "JQ"), Some(0));
    assert_eq!(find_formula(&index, &names, "curl"), None);
    assert_eq!(get(&index, "WGET"), Ok(&index[1]));
    assert_eq!(get(&index, "jq").unwrap().runtime.len(), 0);
    assert_eq!(get(&index, "Curl"), Err(Error::FormulaNotFound { name: "Curl".to_string() }));
}

#[test]
fn dependency_lists_follow_platform_and_mode() {
    let mut f = source_only("tool", &["libA"], &["cmake"]);
    f.recommended = strings(&["extras"]);
    f.optional = strings(&["gui"]);
    f.test = strings(&["check"]);
    f.uses_from_macos = vec![
        UsesFromMacos { name: "zlib".to_string(), when: MacosUse::Always },
        UsesFromMacos { name: "bison".to_string(), when: MacosUse::Build },
        UsesFromMacos { name: "expect".to_string(), when: MacosUse::Test },
        UsesFromMacos { name: "curl".to_string(), when: MacosUse::Always },
    ];
    assert_eq!(runtime_deps(&f, &mac(), ResolveMode::Install), strings(&["libA", "extras"]));
    assert_eq!(runtime_deps(&f, &mac(), ResolveMode::Bundle), strings(&["libA"]));
    assert_eq!(
        runtime_deps(&f, &linux(), ResolveMode::Install),
        strings(&["libA", "extras", "zlib", "curl"])
    );
    assert_eq!(runtime_deps(&f, &linux(), ResolveMode::Bundle), strings(&["libA", "zlib", "curl"]));
    assert_eq!(build_deps(&f, &mac()), strings(&["cmake"]));
    assert_eq!(build_deps(&f, &linux()), strings(&["cmake", "bison"]));
    f.bottles = vec![bottle("all")];
    assert_eq!(build_deps(&f, &linux()), strings(&[]));
}

#[test]
fn single_formula_without_dependencies() {
    let index = vec![formula("jq", &[])];
    let plan = resolve_closure(&index, &strings(&["jq"]), ResolveMode::Install, &mac()).unwrap();
    assert_eq!(
        plan,
        vec![PlannedNode {
            name: "jq".to_string(),
            formula: 0,
            depth: 0,
            via: Via::Explicit,
            from_source: false,
        }]
    );
}

#[test]
fn dependency_comes_before_dependent() {
    let index = vec![formula("foo", &["bar"]), formula("bar", &[])];
    let plan = resolve_closure(&index, &strings(&["foo"]), ResolveMode::Install, &mac()).unwrap();
    assert_eq!(names_of(&plan), vec!["bar", "foo"]);
    assert_eq!(plan[0].via, Via::RuntimeOf("foo".to_string()));
    assert_eq!(plan[0].depth, 1);
    assert_eq!(plan[0].formula, 1);
    assert_eq!(plan[1].via, Via::Explicit);
    assert_eq!(plan[1].depth, 0);
}

#[test]
fn repeated_request_yields_one_node() {
    let index = vec![formula("foo", &[])];
    let plan =
        resolve_closure(&index, &strings(&["foo", "FOO", "foo"]), ResolveMode::Install, &mac())
            .unwrap();
    assert_eq!(names_of(&plan), vec!["foo"]);
    let nothing = resolve_closure(&index, &strings(&[]), ResolveMode::Install, &mac()).unwrap();
    assert!(nothing.is_empty());
}

#[test]
fn ties_are_broken_by_name() {
    let index = vec![
        formula("app", &["zlib", "curl", "openssl"]),
        formula("zlib", &[]),
        formula("openssl", &["ca"]),
        formula("curl", &["openssl", "zlib"]),
        formula("ca", &[]),
        formula("unrelated", &["app"]),
    ];
    let plan =
        resolve_closure(&index, &strings(&["app"]), ResolveMode::Install, &mac()).unwrap();
    assert_eq!(names_of(&plan), vec!["ca", "openssl", "zlib", "curl", "app"]);
    let depths: Vec<usize> = plan.iter().map(|n| n.depth).collect();
    assert_eq!(depths, vec![2, 1, 1, 1, 0]);
    assert_eq!(plan[0].via, Via::RuntimeOf("openssl".to_string()));
    assert_eq!(plan[1].via, Via::RuntimeOf("app".to_string()));
    assert_eq!(plan[2].via, Via::RuntimeOf("app".to_string()));
    let requested_twice =
        resolve_closure(&index, &strings(&["zlib", "app"]), ResolveMode::Install, &mac()).unwrap();
    assert_eq!(names_of(&requested_twice), vec!["ca", "openssl", "zlib", "curl", "app"]);
    assert_eq!(requested_twice[2].via, Via::Explicit);
    assert_eq!(requested_twice[2].depth, 0);
}

#[test]
fn every_dependency_stands_before_its_dependent() {
    let index = vec![
        formula("a", &["b", "c"]),
        formula("b", &["d"]),
        formula("c", &["d", "e"]),
        formula("d", &["f"]),
        formula("e", &[]),
        formula("f", &[]),
    ];
    let plan = resolve_closure(&index, &strings(&["a", "e"]), ResolveMode::Install, &mac()).unwrap();
    assert_eq!(plan.len(), 6);
    let place = |name: &str| plan.iter().position(|n| n.name == name).unwrap();
    for f in &index {
        for dep in &f.runtime {
            assert!(place(dep) < place(&f.name), "{dep} before {}", f.name);
        }
    }
    let again = resolve_closure(&index, &strings(&["a", "e"]), ResolveMode::Install, &mac()).unwrap();
    assert_eq!(plan, again);
    let reordered =
        resolve_closure(&index, &strings(&["e", "a"]), ResolveMode::Install, &mac()).unwrap();
    assert_eq!(plan, reordered);
}

#[test]
fn build_dependencies_come_with_source_builds_only() {
    let index = vec![
        source_only("tool", &["lib"], &["cmake"]),
        formula("lib", &[]),
        formula("cmake", &[]),
        {
            let mut f = formula("bottled", &[]);
            f.build = strings(&["cmake"]);
            f
        },
    ];
    let plan = resolve_closure(&index, &strings(&["tool"]), ResolveMode::Install, &mac()).unwrap();
    assert_eq!(names_of(&plan), vec!["cmake", "lib", "tool"]);
    assert_eq!(plan[0].via, Via::BuildOf("tool".to_string()));
    assert_eq!(plan[1].via, Via::RuntimeOf("tool".to_string()));
    assert!(plan[2].from_source);
    assert!(!plan[0].from_source);
    let bottled =
        resolve_closure(&index, &strings(&["bottled"]), ResolveMode::Install, &mac()).unwrap();
    assert_eq!(names_of(&bottled), vec!["bottled"]);
}

#[test]
fn runtime_need_dominates_build_need() {
    let index = vec![
        source_only("tool", &["lib"], &["shared"]),
        formula("lib", &["shared"]),
        formula("shared", &[]),
    ];
    let plan = resolve_closure(&index, &strings(&["tool"]), ResolveMode::Install, &mac()).unwrap();
    assert_eq!(names_of(&plan), vec!["shared", "lib", "tool"]);
    assert_eq!(plan[0].via, Via::RuntimeOf("lib".to_string()));
    assert_eq!(plan[0].depth, 1);
}

#[test]
fn recommended_come_along_on_install_only() {
    let mut app = formula("app", &[]);
    app.recommended = strings(&["nice"]);
    app.optional = strings(&["gui"]);
    app.test = strings(&["check"]);
    let index = vec![app, formula("nice", &[])];
    let install =
        resolve_closure(&index, &strings(&["app"]), ResolveMode::Install, &mac()).unwrap();
    assert_eq!(names_of(&install), vec!["app", "nice"].into_iter().rev().collect::<Vec<_>>());
    let bundle = resolve_closure(&index, &strings(&["app"]), ResolveMode::Bundle, &mac()).unwrap();
    assert_eq!(names_of(&bundle), vec!["app"]);
}

#[test]
fn macos_provides_what_other_systems_need() {
    let mut app = formula("app", &[]);
    app.bottles = vec![bottle("all")];
    app.uses_from_macos =
        vec![UsesFromMacos { name: "zlib".to_string(), when: MacosUse::Always }];
    let mut zlib = formula("zlib", &[]);
    zlib.bottles = vec![bottle("all")];
    let index = vec![app, zlib];
    let on_mac = resolve_closure(&index, &strings(&["app"]), ResolveMode::Install, &mac()).unwrap();
    assert_eq!(names_of(&on_mac), vec!["app"]);
    let on_linux =
        resolve_closure(&index, &strings(&["app"]), ResolveMode::Install, &linux()).unwrap();
    assert_eq!(names_of(&on_linux), vec!["zlib", "app"]);
}

#[test]
fn missing_formula_is_reported() {
    let index = vec![formula("foo", &["ghost"])];
    assert_eq!(
        resolve_closure(&index, &strings(&["nope"]), ResolveMode::Install, &mac()),
        Err(Error::FormulaNotFound { name: "nope".to_string() })
    );
    assert_eq!(
        resolve_closure(&index, &strings(&["foo"]), ResolveMode::Install, &mac()),
        Err(Error::FormulaNotFound { name: "ghost".to_string() })
    );
}

#[test]
fn least_missing_name_is_reported() {
    let index = vec![formula("app", &["zeta", "lib"]), formula("lib", &["alpha", "Beta"])];
    assert_eq!(
        resolve_closure(&index, &strings(&["app", "omega"]), ResolveMode::Install, &mac()),
        Err(Error::FormulaNotFound { name: "Beta".to_string() })
    );
    assert_eq!(
        resolve_closure(&index, &strings(&["lib"]), ResolveMode::Install, &mac()),
        Err(Error::FormulaNotFound { name: "Beta".to_string() })
    );
    let index = vec![formula("app", &["zeta", "lib"]), formula("lib", &["alpha"])];
    assert_eq!(
        resolve_closure(&index, &strings(&["app", "omega"]), ResolveMode::Install, &mac()),
        Err(Error::FormulaNotFound { name: "alpha".to_string() })
    );
}

#[test]
fn least_unsupported_name_is_reported() {
    let bare = |name: &str, runtime: &[&str]| {
        let mut f = formula(name, runtime);
        f.bottles = vec![];
        f
    };
    let index = vec![formula("app", &["zzz", "mmm"]), bare("zzz", &[]), bare("mmm", &["aaa"]), bare("aaa", &[])];
    assert_eq!(
        resolve_closure(&index, &strings(&["app"]), ResolveMode::Install, &mac()),
        Err(Error::PlatformUnsupported {
            name: "aaa".to_string(),
            platform_tag: "arm64_sonoma".to_string(),
        })
    );
}

#[test]
fn unsupported_formula_is_reported_with_the_platform() {
    let mut lib = formula("lib", &[]);
    lib.bottles = vec![bottle("x86_64_linux")];
    let index = vec![formula("app", &["lib"]), lib];
    assert_eq!(
        resolve_closure(&index, &strings(&["app"]), ResolveMode::Install, &mac()),
        Err(Error::PlatformUnsupported {
            name: "lib".to_string(),
            platform_tag: "arm64_sonoma".to_string(),
        })
    );
    let with_ghost = vec![formula("app", &["lib", "ghost"]), {
        let mut lib = formula("lib", &[]);
        lib.bottles = vec![];
        lib
    }];
    assert_eq!(
        resolve_closure(&with_ghost, &strings(&["app"]), ResolveMode::Install, &mac()),
        Err(Error::FormulaNotFound { name: "ghost".to_string() })
    );
}

#[test]
fn cyclic_graph_is_rejected() {
    let index = vec![
        formula("a", &["b", "leaf"]),
        formula("b", &["c"]),
        formula("c", &["a"]),
        formula("leaf", &[]),
        formula("top", &["a"]),
    ];
    assert_eq!(
        resolve_closure(&index, &strings(&["top"]), ResolveMode::Install, &mac()),
        Err(Error::DependencyCycle { names: strings(&["a", "b", "c", "top"]) })
    );
    let selfish = vec![formula("me", &["me"])];
    assert_eq!(
        resolve_closure(&selfish, &strings(&["me"]), ResolveMode::Install, &mac()),
        Err(Error::DependencyCycle { names: strings(&["me"]) })
    );
    assert_eq!(
        resolve_closure(&index, &strings(&["leaf"]), ResolveMode::Install, &mac())
            .map(|p| p.len()),
        Ok(1)
    );
}

#[test]
fn keg_only_and_text_fields_pass_through() {
    let mut f = formula("openssl@3", &[]);
    f.keg_only = Some(KegOnly { reason: "shadows the system library".to_string() });
    f.license = Some("Apache-2.0".to_string());
    f.caveats = Some("see docs".to_string());
    let index = vec![f];
    let found = get(&index, "OpenSSL@3").unwrap();
    assert_eq!(found.keg_only.as_ref().unwrap().reason, "shadows the system library");
    assert_eq!(found.license.as_deref(), Some("Apache-2.0"));
    assert_eq!(found.caveats.as_deref(), Some("see docs"));
}

#[test]
fn names_are_sorted_by_code_point() {
    let list = strings(&["wget", "curl", "Zlib", "openssl@3", "openssl", "curl", ""]);
    let mut expected = list.clone();
    expected.sort();
    assert_eq!(sort_names(list.clone()), expected);
    assert_eq!(least_name(&list), 6);
    assert_eq!(least_name(&strings(&["b", "a", "a"])), 1);
    assert_eq!(sort_names(vec![]), strings(&[]));
    assert_eq!(sort_names(strings(&["a", "b", "a"])), strings(&["a", "a", "b"]));
}

#[test]
fn host_platform_follows_the_catalog_names() {
    assert_eq!(host_platform("macos", "aarch64", 14), mac());
    let intel = host_platform("macos", "x86_64", 12);
    assert_eq!(intel.tag.catalog_key(), "x86_64_monterey");
    assert_eq!(intel.previous_os_version, Some("big_sur".to_string()));
    assert_eq!(host_platform("macos", "aarch64", 11).previous_os_version, None);
    let newest = host_platform("macos", "aarch64", 26);
    assert_eq!(newest.tag.os_version, "tahoe");
    assert_eq!(newest.previous_os_version, Some("sequoia".to_string()));
    let unknown = host_platform("macos", "aarch64", 10);
    assert_eq!(unknown.tag.os_version, "10");
    assert_eq!(unknown.previous_os_version, None);
    assert_eq!(host_platform("linux", "x86_64", 0), linux());
    let arm = host_platform("freebsd", "aarch64", 14);
    assert_eq!(arm.tag.os_family, OsFamily::Linux);
    assert_eq!(arm.tag.catalog_key(), "arm64_linux");
    let expected = [(11, "big_sur"), (13, "ventura"), (15, "sequoia"), (16, "16"), (0, "0")];
    for (major, name) in expected {
        assert_eq!(macos_name(major), name);
    }
}
