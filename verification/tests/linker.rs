use zerobrew::errors::Error;
use zerobrew::linker::{
    cellar_path, foreign_paths, is_in_the_way, is_linked_file, link_targets, linked_dirs,
    undo_link, LinkTarget, Occupant, Prefix,
};

fn strings(items: &[&str]) -> Vec<String> {
    items.iter().map(|s| s.to_string()).collect()
}

fn conflict(path: &str, owner: &str) -> Error {
    Error::ConflictedLink { path: path.to_string(), existing_owner: owner.to_string() }
}

#[test]
fn nine_directories_are_linked() {
    assert_eq!(
        linked_dirs(),
        strings(&["bin", "sbin", "lib", "include", "share", "etc", "var", "Frameworks", "opt"])
    );
    assert!(is_linked_file("bin/jq"));
    assert!(is_linked_file("share/man/man1/jq.1"));
    assert!(is_linked_file("Frameworks/X.framework/X"));
    assert!(is_linked_file("bin/"));
    assert!(!is_linked_file("bin"));
    assert!(!is_linked_file("libexec/tool"));
    assert!(!is_linked_file("README.md"));
    assert!(!is_linked_file("/bin/jq"));
    assert!(!is_linked_file(""));
    assert!(!is_linked_file("Bin/jq"));
}

#[test]
fn targets_mirror_the_keg() {
    assert_eq!(cellar_path("/p", "jq", "1.7"), "/p/Cellar/jq/1.7");
    let files = strings(&["bin/jq", "README.md", "share/man/jq.1", "libexec/x"]);
    assert_eq!(
        link_targets("/p", "jq", "1.7", &files, false),
        vec![
            LinkTarget {
                path: "/p/bin/jq".to_string(),
                source: "/p/Cellar/jq/1.7/bin/jq".to_string(),
            },
            LinkTarget {
                path: "/p/share/man/jq.1".to_string(),
                source: "/p/Cellar/jq/1.7/share/man/jq.1".to_string(),
            },
        ]
    );
    assert_eq!(link_targets("/p", "jq", "1.7", &files, true), vec![]);
    assert_eq!(link_targets("/p", "jq", "1.7", &vec![], false), vec![]);
}

#[test]
fn linking_takes_ownership_of_free_paths() {
    let mut prefix = Prefix::new();
    assert_eq!(prefix.owner("/p/bin/jq"), None);
    let created = prefix.link("jq", &strings(&["/p/bin/jq", "/p/share/jq.1"]), &vec![]).unwrap();
    assert_eq!(created, strings(&["/p/bin/jq", "/p/share/jq.1"]));
    assert_eq!(prefix.owner("/p/bin/jq"), Some("jq"));
    assert_eq!(prefix.owner("/p/share/jq.1"), Some("jq"));
    assert_eq!(prefix.owner("/p/bin/wget"), None);
}

#[test]
fn linking_again_is_idempotent() {
    let mut prefix = Prefix::new();
    let targets = strings(&["/p/bin/jq", "/p/bin/jq", "/p/lib/libjq.a"]);
    assert_eq!(prefix.link("jq", &targets, &vec![]).unwrap(), strings(&["/p/bin/jq", "/p/lib/libjq.a"]));
    assert_eq!(prefix.link("jq", &targets, &vec![]).unwrap(), strings(&[]));
    let more = strings(&["/p/bin/jq", "/p/bin/jq2"]);
    assert_eq!(prefix.plan_link("jq", &more, &vec![]).unwrap(), strings(&["/p/bin/jq2"]));
    assert_eq!(prefix.owner("/p/bin/jq2"), None);
}

#[test]
fn conflict_aborts_and_changes_nothing() {
    let mut prefix = Prefix::new();
    prefix.link("first", &strings(&["/p/bin/foo"]), &vec![]).unwrap();
    let targets = strings(&["/p/bin/other", "/p/bin/foo", "/p/bin/more"]);
    assert_eq!(prefix.link("second", &targets, &vec![]), Err(conflict("/p/bin/foo", "first")));
    assert_eq!(prefix.owner("/p/bin/other"), None);
    assert_eq!(prefix.owner("/p/bin/more"), None);
    assert_eq!(prefix.owner("/p/bin/foo"), Some("first"));
    assert_eq!(prefix.plan_link("second", &targets, &vec![]), Err(conflict("/p/bin/foo", "first")));
}

#[test]
fn foreign_file_is_a_conflict_without_owner() {
    let mut prefix = Prefix::new();
    let foreign = strings(&["/p/bin/tool"]);
    assert_eq!(
        prefix.link("jq", &strings(&["/p/bin/jq", "/p/bin/tool"]), &foreign),
        Err(conflict("/p/bin/tool", ""))
    );
    assert_eq!(prefix.owner("/p/bin/jq"), None);
    prefix.commit_link("jq", &strings(&["/p/bin/tool"]));
    assert_eq!(
        prefix.link("jq", &strings(&["/p/bin/tool"]), &foreign),
        Err(conflict("/p/bin/tool", ""))
    );
}

#[test]
fn unlink_removes_exactly_what_the_formula_owns() {
    let mut prefix = Prefix::new();
    prefix.link("a", &strings(&["/p/bin/a1", "/p/bin/a2"]), &vec![]).unwrap();
    prefix.link("b", &strings(&["/p/bin/b1"]), &vec![]).unwrap();
    prefix.link("a", &strings(&["/p/lib/a3"]), &vec![]).unwrap();
    assert_eq!(prefix.unlink("a"), strings(&["/p/bin/a1", "/p/bin/a2", "/p/lib/a3"]));
    assert_eq!(prefix.owner("/p/bin/a1"), None);
    assert_eq!(prefix.owner("/p/bin/b1"), Some("b"));
    assert_eq!(prefix.unlink("a"), strings(&[]));
    assert_eq!(prefix.unlink("b"), strings(&["/p/bin/b1"]));
}

#[test]
fn failure_at_a_link_undoes_those_before_it() {
    let created = strings(&["/p/bin/a", "/p/bin/b", "/p/bin/c"]);
    assert_eq!(undo_link(&created, 0), strings(&[]));
    assert_eq!(undo_link(&created, 1), strings(&["/p/bin/a"]));
    assert_eq!(undo_link(&created, 2), strings(&["/p/bin/b", "/p/bin/a"]));
    assert_eq!(undo_link(&created, 3), strings(&["/p/bin/c", "/p/bin/b", "/p/bin/a"]));
    assert_eq!(undo_link(&created, 9), strings(&["/p/bin/c", "/p/bin/b", "/p/bin/a"]));
    let mut on_disk: Vec<String> = strings(&["/p/bin/kept"]);
    let failed_at = 2;
    on_disk.extend(created[..failed_at].iter().cloned());
    for path in undo_link(&created, failed_at) {
        on_disk.retain(|p| *p != path);
    }
    assert_eq!(on_disk, strings(&["/p/bin/kept"]));
}

#[test]
fn link_of_the_same_formula_is_not_in_the_way() {
    let own = Occupant::LinkTo("/p/Cellar/jq/1.7/bin/jq".to_string());
    let other = Occupant::LinkTo("/p/Cellar/jq2/1.0/bin/jq".to_string());
    let outside = Occupant::LinkTo("/usr/bin/jq".to_string());
    assert!(!is_in_the_way(&Occupant::Nothing, "/p", "jq"));
    assert!(is_in_the_way(&Occupant::Other, "/p", "jq"));
    assert!(!is_in_the_way(&own, "/p", "jq"));
    assert!(is_in_the_way(&other, "/p", "jq"));
    assert!(is_in_the_way(&outside, "/p", "jq"));
    assert!(is_in_the_way(&Occupant::LinkTo("/p/Cellar/jq".to_string()), "/p", "jq"));
    let targets = strings(&["/p/bin/a", "/p/bin/b", "/p/bin/c", "/p/bin/d", "/p/bin/e"]);
    let occupants = vec![Occupant::Other, own, Occupant::Nothing, outside];
    assert_eq!(
        foreign_paths("/p", "jq", &targets, &occupants),
        strings(&["/p/bin/a", "/p/bin/d"])
    );
    assert_eq!(foreign_paths("/p", "jq", &targets, &vec![]), strings(&[]));
}
