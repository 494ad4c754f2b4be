use zerobrew::errors::Error;
use zerobrew::formula::types::Version;
use zerobrew::store::{
    cache_path, db_path, find_key, find_record, keg_path, live_records, lock_path, prune_cache,
    staging_path, store_key_material, CacheEntry, GcReport, InstalledRecord, Store,
};

fn strings(items: &[&str]) -> Vec<String> {
    items.iter().map(|s| s.to_string()).collect()
}

fn record(name: &str, key: &str, explicit: bool, deps: &[&str]) -> InstalledRecord {
    InstalledRecord {
        name: name.to_string(),
        version: "1.0".to_string(),
        store_key: key.to_string(),
        installed_at: 1_700_000_000,
        explicit,
        requested_deps: strings(deps),
        keg_only: false,
        links: vec![format!("bin/{name}")],
    }
}

fn store_with(kegs: &[&str], records: Vec<InstalledRecord>) -> Store {
    Store::open(strings(kegs), vec![], records).unwrap()
}

fn corrupt(message: &str) -> Error {
    Error::StoreCorruption { message: message.to_string() }
}

#[test]
fn paths_lie_below_the_store_directory() {
    assert_eq!(keg_path("/r", "abc"), "/r/store/abc");
    assert_eq!(staging_path("/r", "abc"), "/r/store/abc.tmp");
    assert_eq!(keg_path("r/", "k"), "r/store/k");
    assert_eq!(db_path("/r"), "/r/db/installed");
    assert_eq!(lock_path("/r"), "/r/locks/install.lock");
    assert_eq!(cache_path("/r", "0a1b"), "/r/cache/0a1b");
}

#[test]
fn store_key_material_is_canonical() {
    let version = Version { upstream: "1.7.1".to_string(), revision: 2, rebuild: 0 };
    assert_eq!(
        store_key_material("jq", &version, "deadbeef", "arm64_sonoma"),
        "jq\n1.7.1_2_0\ndeadbeef\narm64_sonoma"
    );
    let other = Version { upstream: "1.7.1".to_string(), revision: 0, rebuild: 20 };
    assert_eq!(store_key_material("jq", &other, "", "all"), "jq\n1.7.1_0_20\n\nall");
}

#[test]
fn lookups_find_the_first_place() {
    let keys = strings(&["a", "b", "a"]);
    assert_eq!(find_key(&keys, "a"), 0);
    assert_eq!(find_key(&keys, "b"), 1);
    assert_eq!(find_key(&keys, "c"), 3);
    let records = vec![record("x", "k", true, &[]), record("y", "k", false, &[])];
    assert_eq!(find_record(&records, "y"), 1);
    assert_eq!(find_record(&records, "z"), 2);
}

#[test]
fn keg_counts_only_once_committed() {
    let mut store = Store::new();
    assert!(!store.contains("k1"));
    assert!(store.stage("k1"));
    assert!(!store.contains("k1"));
    assert_eq!(store.list(), strings(&[]));
    assert!(store.stage("k1"));
    assert_eq!(store.commit("k1"), Ok(()));
    assert!(store.contains("k1"));
    assert_eq!(store.list(), strings(&["k1"]));
    assert!(!store.stage("k1"));
    assert_eq!(store.commit("k1"), Err(corrupt("nothing is staged for k1")));
    assert_eq!(store.commit("k2"), Err(corrupt("nothing is staged for k2")));
}

#[test]
fn failed_materialization_leaves_only_what_is_staged() {
    let mut store = Store::new();
    assert!(store.stage("k1"));
    assert!(store.stage("k2"));
    assert_eq!(store.commit("k2"), Ok(()));
    // k1 never made it: it is no keg, and the next start forgets it.
    assert!(!store.contains("k1"));
    assert_eq!(store.list(), strings(&["k2"]));
    assert_eq!(store.prune(), strings(&["k1"]));
    assert_eq!(store.prune(), strings(&[]));
    assert_eq!(store.commit("k1"), Err(corrupt("nothing is staged for k1")));
    assert!(!store.contains("k1"));
}

#[test]
fn record_needs_its_keg() {
    let mut store = Store::new();
    assert_eq!(
        store.insert(record("jq", "k1", true, &[])),
        Err(corrupt("no keg k1 for jq"))
    );
    assert!(store.list_records().is_empty());
    store.stage("k1");
    store.commit("k1").unwrap();
    assert_eq!(store.insert(record("jq", "k1", true, &[])), Ok(None));
    assert_eq!(store.get("jq"), Some(&record("jq", "k1", true, &[])));
    assert_eq!(store.get("wget"), None);
    assert!(store.is_referenced("k1"));
    assert_eq!(store.remove("k1"), Err(corrupt("keg k1 is still referenced")));
    assert!(store.contains("k1"));
}

#[test]
fn upgrade_replaces_the_record() {
    let mut store = store_with(&["old", "new"], vec![record("jq", "old", true, &[])]);
    let mut newer = record("jq", "new", true, &[]);
    newer.version = "2.0".to_string();
    assert_eq!(store.insert(newer), Ok(Some(record("jq", "old", true, &[]))));
    assert_eq!(store.list_records().len(), 1);
    assert_eq!(store.get("jq").unwrap().store_key, "new");
    assert_eq!(store.remove("old"), Ok(true));
    assert_eq!(store.remove("old"), Ok(false));
    assert_eq!(store.list(), strings(&["new"]));
}

#[test]
fn uninstall_forgets_the_record_and_keeps_others() {
    let mut store = store_with(
        &["kf", "kb"],
        vec![record("foo", "kf", true, &["bar"]), record("bar", "kb", false, &[])],
    );
    assert_eq!(store.remove_record("foo"), Some(record("foo", "kf", true, &["bar"])));
    assert_eq!(store.remove_record("foo"), None);
    assert_eq!(store.list_records(), &vec![record("bar", "kb", false, &[])]);
    assert!(store.contains("kf"));
    assert!(store.contains("kb"));
}

#[test]
fn explicit_mark_can_be_changed() {
    let mut store = store_with(&["kb"], vec![record("bar", "kb", false, &[])]);
    assert!(store.update_explicit("bar", true));
    assert_eq!(store.get("bar"), Some(&record("bar", "kb", true, &[])));
    assert!(store.update_explicit("bar", false));
    assert!(!store.get("bar").unwrap().explicit);
    assert!(!store.update_explicit("nope", true));
}

#[test]
fn open_checks_the_records() {
    assert!(Store::open(strings(&["a", "a", "b"]), strings(&["a", "c", "c"]), vec![]).is_ok());
    let store = Store::open(strings(&["a", "a", "b"]), strings(&["a", "c", "c"]), vec![]).unwrap();
    assert_eq!(store.list(), strings(&["a", "b"]));
    let dangling = Store::open(strings(&["a"]), vec![], vec![record("jq", "zz", true, &[])]);
    assert_eq!(dangling.err(), Some(corrupt("no keg zz for jq")));
    let twice = Store::open(
        strings(&["a"]),
        vec![],
        vec![record("jq", "a", true, &[]), record("wget", "a", true, &[]), record("jq", "a", false, &[])],
    );
    assert_eq!(twice.err(), Some(corrupt("formula recorded twice: jq")));
}

#[test]
fn open_forgets_what_is_staged_after_pruning() {
    let mut store = Store::open(strings(&["a"]), strings(&["a", "t1", "t2"]), vec![]).unwrap();
    assert_eq!(store.prune(), strings(&["t1", "t2"]));
    assert_eq!(store.list(), strings(&["a"]));
}

#[test]
fn records_in_use_are_those_reached_from_explicit_ones() {
    let records = vec![
        record("app", "k1", true, &["lib", "missing"]),
        record("lib", "k2", false, &["base"]),
        record("base", "k3", false, &[]),
        record("orphan", "k4", false, &["base", "app"]),
        record("loop-a", "k5", false, &["loop-b"]),
        record("loop-b", "k6", false, &["loop-a"]),
    ];
    assert_eq!(live_records(&records), vec![true, true, true, false, false, false]);
    assert_eq!(live_records(&vec![]), Vec::<bool>::new());
}

#[test]
fn gc_drops_what_nothing_needs() {
    let mut store = Store::open(
        strings(&["kf", "kb", "kx", "stale"]),
        strings(&["half"]),
        vec![
            record("foo", "kf", true, &["bar"]),
            record("bar", "kb", false, &[]),
            record("extra", "kx", false, &[]),
        ],
    )
    .unwrap();
    let report = store.gc();
    assert_eq!(
        report,
        GcReport {
            dropped: strings(&["extra"]),
            removed: strings(&["kx", "stale"]),
            pruned: strings(&["half"]),
        }
    );
    assert_eq!(store.list(), strings(&["kf", "kb"]));
    assert_eq!(store.list_records().len(), 2);
    for r in store.list_records() {
        assert!(store.contains(&r.store_key));
    }
    let again = store.gc();
    assert_eq!(again, GcReport { dropped: vec![], removed: vec![], pruned: vec![] });
}

#[test]
fn gc_after_uninstall_removes_the_dependency() {
    let mut store = store_with(
        &["kf", "kb"],
        vec![record("foo", "kf", true, &["bar"]), record("bar", "kb", false, &[])],
    );
    assert_eq!(store.gc(), GcReport { dropped: vec![], removed: vec![], pruned: vec![] });
    store.remove_record("foo").unwrap();
    let report = store.gc();
    assert_eq!(report.dropped, strings(&["bar"]));
    assert_eq!(report.removed, strings(&["kf", "kb"]));
    assert!(store.list().is_empty());
    assert!(store.list_records().is_empty());
}

#[test]
fn gc_keeps_a_keg_that_two_records_share() {
    let mut store = store_with(
        &["shared"],
        vec![record("a", "shared", true, &[]), record("b", "shared", false, &[])],
    );
    let report = store.gc();
    assert_eq!(report.dropped, strings(&["b"]));
    assert_eq!(report.removed, strings(&[]));
    assert_eq!(store.list(), strings(&["shared"]));
}

#[test]
fn cache_is_pruned_by_age() {
    let entry = |path: &str, modified: u64| CacheEntry { path: path.to_string(), modified };
    let entries = vec![
        entry("old", 100),
        entry("edge", 900),
        entry("fresh", 950),
        entry("future", 2_000),
        entry("older", 0),
    ];
    assert_eq!(prune_cache(&entries, 1_000, 100), strings(&["old", "older"]));
    assert_eq!(prune_cache(&entries, 1_000, 99), strings(&["old", "edge", "older"]));
    assert_eq!(prune_cache(&entries, 1_000, 0), strings(&["old", "edge", "fresh", "older"]));
    assert_eq!(prune_cache(&entries, 1_000, u64::MAX), strings(&[]));
    assert_eq!(prune_cache(&vec![], 1_000, 0), strings(&[]));
}
