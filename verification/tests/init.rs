use zerobrew::commands::init::execute;
use zerobrew::errors::Error;
use zerobrew::init::{
    config_file, confirm_init, confirm_reset, decide_init, ensure_store, init_directories, is_writable,
    needs_init, needs_path_entry, needs_sudo, path_addition, path_export, plan_init,
    preferred_config, shell_kind, step_failure, DirProbe, DirStatus, InitDecision, InitError,
    InitStep, ShellKind,
};

const READY: DirStatus = DirStatus { exists: true, accepts_writes: true };
const LOCKED: DirStatus = DirStatus { exists: true, accepts_writes: false };
const ABSENT: DirStatus = DirStatus { exists: false, accepts_writes: false };
const GHOST: DirStatus = DirStatus { exists: false, accepts_writes: true };

#[test]
fn init_is_needed_unless_both_are_ready() {
    assert!(!needs_init(&READY, &READY));
    for other in [LOCKED, ABSENT, GHOST] {
        assert!(needs_init(&READY, &other));
        assert!(needs_init(&other, &READY));
        assert!(needs_init(&other, &other));
    }
    assert!(is_writable(&READY));
    assert!(!is_writable(&LOCKED));
    assert!(!is_writable(&ABSENT));
    assert!(!is_writable(&GHOST));
}

#[test]
fn absent_store_is_reported_as_corrupt() {
    assert_eq!(ensure_store(&READY, &READY), Ok(()));
    let expected = Err(Error::StoreCorruption {
        message: "Initialization required. Run 'zb init' first.".to_string(),
    });
    assert_eq!(ensure_store(&ABSENT, &READY), expected);
    assert_eq!(ensure_store(&READY, &LOCKED), expected);
}

#[test]
fn directories_come_in_creation_order() {
    assert_eq!(
        init_directories("/opt/zb", "/opt/zb/prefix"),
        vec![
            "/opt/zb",
            "/opt/zb/store",
            "/opt/zb/db",
            "/opt/zb/cache",
            "/opt/zb/locks",
            "/opt/zb/prefix",
            "/opt/zb/prefix/bin",
            "/opt/zb/prefix/Cellar",
        ]
    );
    assert_eq!(init_directories("r/", "")[1], "r/store");
    assert_eq!(init_directories("r/", "")[6], "bin");
}

#[test]
fn sudo_is_needed_where_a_directory_is_blocked() {
    let free = DirProbe { dir: READY, parent: Some(READY) };
    let creatable = DirProbe { dir: ABSENT, parent: Some(READY) };
    let deep = DirProbe { dir: ABSENT, parent: Some(ABSENT) };
    let locked = DirProbe { dir: LOCKED, parent: Some(READY) };
    let under_locked = DirProbe { dir: ABSENT, parent: Some(LOCKED) };
    let orphan = DirProbe { dir: ABSENT, parent: None };
    let root_dir = DirProbe { dir: READY, parent: None };
    assert!(!needs_sudo(&vec![]));
    assert!(!needs_sudo(&vec![free, creatable, deep, root_dir]));
    assert!(needs_sudo(&vec![free, locked]));
    assert!(needs_sudo(&vec![under_locked, free]));
    assert!(needs_sudo(&vec![free, creatable, orphan]));
}

#[test]
fn plan_creates_then_owns_then_exports() {
    let plain = plan_init("/r", "/p", false);
    assert_eq!(plain.len(), 9);
    assert_eq!(plain[0], InitStep::CreateDirAll("/r".to_string()));
    assert_eq!(plain[4], InitStep::CreateDirAll("/r/locks".to_string()));
    assert_eq!(plain[7], InitStep::CreateDirAll("/p/Cellar".to_string()));
    assert_eq!(plain[8], InitStep::AddToPath);
    let elevated = plan_init("/r", "/p", true);
    assert_eq!(elevated.len(), 11);
    assert_eq!(elevated[0], InitStep::SudoMkdir("/r".to_string()));
    assert_eq!(elevated[6], InitStep::SudoMkdir("/p/bin".to_string()));
    assert_eq!(elevated[8], InitStep::SudoChown("/r".to_string()));
    assert_eq!(elevated[9], InitStep::SudoChown("/p".to_string()));
    assert_eq!(elevated[10], InitStep::AddToPath);
}

#[test]
fn step_failures_have_their_messages() {
    let msg = |step: InitStep, detail: Option<&str>| match step_failure(&step, detail) {
        InitError::Message(m) => m,
    };
    assert_eq!(msg(InitStep::SudoMkdir("/r".into()), Some("no sudo")), "Failed to run sudo mkdir: no sudo");
    assert_eq!(msg(InitStep::SudoMkdir("/r".into()), None), "Failed to create directory: /r");
    assert_eq!(msg(InitStep::SudoChown("/r".into()), Some("x")), "Failed to run sudo chown: x");
    assert_eq!(msg(InitStep::SudoChown("/r".into()), None), "Failed to set ownership on /r");
    assert_eq!(msg(InitStep::CreateDirAll("/r".into()), Some("denied")), "Failed to create /r: denied");
    assert_eq!(msg(InitStep::CreateDirAll("/r".into()), None), "Failed to create directory: /r");
    assert_eq!(msg(InitStep::AddToPath, None), "HOME not set");
    assert_eq!(msg(InitStep::AddToPath, Some("x")), "HOME not set");
}

#[test]
fn shell_decides_the_config_file() {
    assert_eq!(shell_kind("/bin/zsh"), ShellKind::Zsh);
    assert_eq!(shell_kind("/usr/local/bin/bash"), ShellKind::Bash);
    assert_eq!(shell_kind("/bin/zsh-bash"), ShellKind::Zsh);
    assert_eq!(shell_kind("/bin/fish"), ShellKind::Other);
    assert_eq!(shell_kind(""), ShellKind::Other);
    assert_eq!(preferred_config(ShellKind::Zsh, "/h", "/z"), "/z/.zshenv");
    assert_eq!(preferred_config(ShellKind::Bash, "/h", "/z"), "/h/.bash_profile");
    assert_eq!(preferred_config(ShellKind::Other, "/h", "/z"), "/h/.profile");
    assert_eq!(config_file(ShellKind::Zsh, "/h", "/z", true), "/z/.zshenv");
    assert_eq!(config_file(ShellKind::Zsh, "/h", "/z", false), "/z/.zshrc");
    assert_eq!(config_file(ShellKind::Bash, "/h", "/z", true), "/h/.bash_profile");
    assert_eq!(config_file(ShellKind::Bash, "/h", "/z", false), "/h/.bashrc");
    assert_eq!(config_file(ShellKind::Other, "/h", "/z", true), "/h/.profile");
    assert_eq!(config_file(ShellKind::Other, "/h", "/z", false), "/h/.profile");
}

#[test]
fn path_entry_is_an_export_line() {
    assert_eq!(path_export("/p/bin"), "export PATH=\"/p/bin:$PATH\"");
    assert_eq!(path_addition("/p/bin"), "\n# zerobrew\nexport PATH=\"/p/bin:$PATH\"\n");
    assert!(needs_path_entry(None, "/p/bin"));
    assert!(needs_path_entry(Some("export PATH=/usr/bin"), "/p/bin"));
    assert!(!needs_path_entry(Some("x\nexport PATH=\"/p/bin:$PATH\"\n"), "/p/bin"));
}

#[test]
fn answers_are_read_leniently() {
    for yes in ["", "\n", "y\n", "Y", " yes \n", "YES", "yEs"] {
        assert_eq!(confirm_init(yes), Ok(()), "{yes:?}");
    }
    for no in ["n", "no\n", "yess", "y e s", "ja"] {
        assert_eq!(
            confirm_init(no),
            Err(Error::StoreCorruption {
                message: "Initialization required. Run 'zb init' first.".to_string()
            }),
            "{no:?}"
        );
    }
    assert!(confirm_reset("y\n"));
    assert!(confirm_reset(" Y "));
    assert!(!confirm_reset(""));
    assert!(!confirm_reset("yes"));
    assert!(!confirm_reset("n"));
}

#[test]
fn init_failure_becomes_store_corruption() {
    assert_eq!(execute(Ok(())), Ok(()));
    assert_eq!(
        execute(Err(InitError::Message("HOME not set".to_string()))),
        Err(Error::StoreCorruption { message: "HOME not set".to_string() })
    );
}

#[test]
fn bootstrap_is_decided_from_need_setting_and_answer() {
    let declined = InitDecision::Declined(Error::StoreCorruption {
        message: "Initialization required. Run 'zb init' first.".to_string(),
    });
    for auto in [false, true] {
        for answer in [None, Some("n"), Some("y")] {
            assert_eq!(decide_init(false, auto, answer), InitDecision::Ready);
        }
    }
    for answer in [None, Some("n"), Some("yes")] {
        assert_eq!(decide_init(true, true, answer), InitDecision::Initialize);
    }
    assert_eq!(decide_init(true, false, None), InitDecision::Ask);
    assert_eq!(decide_init(true, false, Some("\n")), InitDecision::Initialize);
    assert_eq!(decide_init(true, false, Some(" Yes ")), InitDecision::Initialize);
    assert_eq!(decide_init(true, false, Some("no")), declined);
}
