//! Bootstrap of the root and the prefix: what has to be created, whether
//! that takes elevated rights, and how a failure is reported.
//!
//! Nothing here touches the file system. The caller observes directories,
//! hands the observations in, and carries out the steps that come back.

use vstd::prelude::*;
use vstd::string::*;
use crate::errors::Error;
use crate::paths::{join, join_path};
use crate::text::{
    chars_of, contains_chars, contains_run, eq_ignore_ascii_case, range_eq_ignore_case, trim,
    trim_range,
};

verus! {

/// Why the bootstrap failed.
#[derive(Debug, PartialEq, Eq)]
pub enum InitError {
    Message(String),
}

/// What was observed of a directory.
#[derive(Debug, Clone, Copy, PartialEq, Eq)]
pub struct DirStatus {
    /// The directory exists.
    pub exists: bool,
    /// A file could be created in it. Meaningful only where it exists.
    pub accepts_writes: bool,
}

/// What was observed of a directory that the bootstrap creates, and of the
/// directory above it, where there is one.
#[derive(Debug, Clone, Copy, PartialEq, Eq)]
pub struct DirProbe {
    pub dir: DirStatus,
    pub parent: Option<DirStatus>,
}

impl DirStatus {
    /// Whether the directory exists and can be written to.
    pub open spec fn usable(self) -> bool {
        self.exists && self.accepts_writes
    }
}

impl DirProbe {
    /// Whether the directory cannot be made ready with the rights at hand: it
    /// exists and refuses writes, or it is missing below a directory that
    /// exists and refuses writes, or it is missing and has nothing above it.
    pub open spec fn blocked(self) -> bool {
        if self.dir.exists {
            !self.dir.usable()
        } else {
            match self.parent {
                Some(parent) => parent.exists && !parent.usable(),
                None => true,
            }
        }
    }
}

/// Whether the directory exists and can be written to.
pub fn is_writable(status: &DirStatus) -> (b: bool)
    ensures
        b == status.usable(),
{
    status.exists && status.accepts_writes
}

/// Whether root or prefix is missing or cannot be written to.
pub fn needs_init(root: &DirStatus, prefix: &DirStatus) -> (b: bool)
    ensures
        b == !(root.usable() && prefix.usable()),
{
    let root_ok = root.exists && is_writable(root);
    let prefix_ok = prefix.exists && is_writable(prefix);
    !(root_ok && prefix_ok)
}

/// The message for a store that is not set up.
pub open spec fn init_required() -> Seq<char> {
    "Initialization required. Run 'zb init' first."@
}

/// Succeeds where root and prefix are ready, and reports a corrupt store
/// where either is missing or cannot be written to.
pub fn ensure_store(root: &DirStatus, prefix: &DirStatus) -> (res: Result<(), Error>)
    ensures
        root.usable() && prefix.usable() ==> res is Ok,
        !(root.usable() && prefix.usable()) ==> res is Err && res->Err_0.is_store_corruption(
            init_required(),
        ),
{
    if needs_init(root, prefix) {
        return Err(
            Error::StoreCorruption {
                message: String::from_str("Initialization required. Run 'zb init' first."),
            },
        );
    }
    Ok(())
}

/// The directories of a fresh installation, in the order of their creation.
pub open spec fn init_directories_spec(root: Seq<char>, prefix: Seq<char>) -> Seq<Seq<char>> {
    seq![
        root,
        join_path(root, "store"@),
        join_path(root, "db"@),
        join_path(root, "cache"@),
        join_path(root, "locks"@),
        prefix,
        join_path(prefix, "bin"@),
        join_path(prefix, "Cellar"@),
    ]
}

/// The directories of a fresh installation, in the order of their creation.
pub fn init_directories(root: &str, prefix: &str) -> (dirs: Vec<String>)
    ensures
        dirs.deep_view() == init_directories_spec(root@, prefix@),
{
    let mut dirs: Vec<String> = Vec::new();
    dirs.push(String::from_str(root));
    dirs.push(join(root, "store"));
    dirs.push(join(root, "db"));
    dirs.push(join(root, "cache"));
    dirs.push(join(root, "locks"));
    dirs.push(String::from_str(prefix));
    dirs.push(join(prefix, "bin"));
    dirs.push(join(prefix, "Cellar"));
    assert(dirs.deep_view() =~= init_directories_spec(root@, prefix@));
    dirs
}

/// Whether any of the observed directories is blocked, so that the
/// bootstrap has to create them with elevated rights.
pub fn needs_sudo(probes: &Vec<DirProbe>) -> (b: bool)
    ensures
        b == exists|i: int| 0 <= i < probes.len() && (#[trigger] probes[i]).blocked(),
{
    let mut i: usize = 0;
    while i < probes.len()
        invariant
            i <= probes.len(),
            forall|j: int| 0 <= j < i ==> !(#[trigger] probes[j]).blocked(),
        decreases probes.len() - i,
    {
        let probe = &probes[i];
        let blocked = if probe.dir.exists {
            !is_writable(&probe.dir)
        } else {
            match probe.parent {
                Some(parent) => parent.exists && !is_writable(&parent),
                None => true,
            }
        };
        if blocked {
            return true;
        }
        i = i + 1;
    }
    false
}

/// One step of the bootstrap.
#[derive(Debug, PartialEq, Eq)]
pub enum InitStep {
    /// Create the directory and those above it, with elevated rights.
    SudoMkdir(String),
    /// Hand the tree at this path to the invoking user, with elevated rights.
    SudoChown(String),
    /// Create the directory and those above it.
    CreateDirAll(String),
    /// Put the prefix's `bin` on the shell's search path.
    AddToPath,
}

/// A step of the bootstrap, as a mathematical value.
pub enum StepView {
    SudoMkdir(Seq<char>),
    SudoChown(Seq<char>),
    CreateDirAll(Seq<char>),
    AddToPath,
}

impl InitStep {
    /// The step as a mathematical value.
    pub open spec fn view(&self) -> StepView {
        match self {
            InitStep::SudoMkdir(dir) => StepView::SudoMkdir(dir@),
            InitStep::SudoChown(path) => StepView::SudoChown(path@),
            InitStep::CreateDirAll(dir) => StepView::CreateDirAll(dir@),
            InitStep::AddToPath => StepView::AddToPath,
        }
    }
}

/// The steps of the bootstrap, in order.
///
/// With elevated rights every directory is created and then root and prefix
/// are handed to the user; without, every directory is created. The search
/// path comes last either way.
pub open spec fn init_plan(root: Seq<char>, prefix: Seq<char>, sudo: bool) -> Seq<StepView> {
    let dirs = init_directories_spec(root, prefix);
    if sudo {
        Seq::new(dirs.len(), |i: int| StepView::SudoMkdir(dirs[i])) + seq![
            StepView::SudoChown(root),
            StepView::SudoChown(prefix),
            StepView::AddToPath,
        ]
    } else {
        Seq::new(dirs.len(), |i: int| StepView::CreateDirAll(dirs[i])) + seq![StepView::AddToPath]
    }
}

/// The views of `steps`, in order.
pub open spec fn step_views(steps: Seq<InitStep>) -> Seq<StepView> {
    Seq::new(steps.len(), |i: int| steps[i]@)
}

/// The steps that set up `root` and `prefix`, in order.
pub fn plan_init(root: &str, prefix: &str, sudo: bool) -> (steps: Vec<InitStep>)
    ensures
        step_views(steps@) == init_plan(root@, prefix@, sudo),
{
    let dirs = init_directories(root, prefix);
    let ghost all = dirs.deep_view();
    let mut steps: Vec<InitStep> = Vec::new();
    let mut i: usize = 0;
    assert(dirs.len() == all.len());
    while i < dirs.len()
        invariant
            i <= dirs.len(),
            all == dirs.deep_view(),
            steps.len() == i,
            forall|j: int|
                0 <= j < i ==> (#[trigger] steps@[j])@ == if sudo {
                    StepView::SudoMkdir(all[j])
                } else {
                    StepView::CreateDirAll(all[j])
                },
        decreases dirs.len() - i,
    {
        let dir = dirs[i].clone();
        assert(dir@ == all[i as int]);
        if sudo {
            steps.push(InitStep::SudoMkdir(dir));
        } else {
            steps.push(InitStep::CreateDirAll(dir));
        }
        i = i + 1;
    }
    if sudo {
        steps.push(InitStep::SudoChown(String::from_str(root)));
        steps.push(InitStep::SudoChown(String::from_str(prefix)));
    }
    steps.push(InitStep::AddToPath);
    assert(step_views(steps@) =~= init_plan(root@, prefix@, sudo));
    steps
}

/// The message for a step that failed: with `detail` where the step could
/// not be carried out at all, without where a helper ran and reported failure.
pub open spec fn step_failure_message(step: StepView, detail: Option<Seq<char>>) -> Seq<char> {
    match step {
        StepView::AddToPath => "HOME not set"@,
        StepView::SudoChown(path) => match detail {
            Some(d) => "Failed to run sudo chown: "@ + d,
            None => "Failed to set ownership on "@ + path,
        },
        StepView::SudoMkdir(dir) => match detail {
            Some(d) => "Failed to run sudo mkdir: "@ + d,
            None => "Failed to create directory: "@ + dir,
        },
        StepView::CreateDirAll(dir) => match detail {
            Some(d) => "Failed to create "@ + dir + ": "@ + d,
            None => "Failed to create directory: "@ + dir,
        },
    }
}

/// The error for a step that failed.
pub fn step_failure(step: &InitStep, detail: Option<&str>) -> (err: InitError)
    ensures
        err matches InitError::Message(m) && m@ == step_failure_message(
            step@,
            match detail {
                Some(d) => Some(d@),
                None => None,
            },
        ),
{
    let message = match step {
        InitStep::AddToPath => String::from_str("HOME not set"),
        InitStep::SudoChown(path) => match detail {
            Some(d) => String::from_str("Failed to run sudo chown: ").concat(d),
            None => String::from_str("Failed to set ownership on ").concat(path.as_str()),
        },
        InitStep::SudoMkdir(dir) => match detail {
            Some(d) => String::from_str("Failed to run sudo mkdir: ").concat(d),
            None => String::from_str("Failed to create directory: ").concat(dir.as_str()),
        },
        InitStep::CreateDirAll(dir) => match detail {
            Some(d) => String::from_str("Failed to create ").concat(dir.as_str()).concat(
                ": ",
            ).concat(d),
            None => String::from_str("Failed to create directory: ").concat(dir.as_str()),
        },
    };
    InitError::Message(message)
}

/// The shell that a login shell's path names.
#[derive(Debug, Clone, Copy, PartialEq, Eq)]
pub enum ShellKind {
    Zsh,
    Bash,
    Other,
}

/// The shell that `shell` names: zsh where it holds `zsh`, else bash where
/// it holds `bash`.
pub open spec fn shell_kind_spec(shell: Seq<char>) -> ShellKind {
    if contains_run(shell, "zsh"@) {
        ShellKind::Zsh
    } else if contains_run(shell, "bash"@) {
        ShellKind::Bash
    } else {
        ShellKind::Other
    }
}

/// The shell that the path `shell` names.
pub fn shell_kind(shell: &str) -> (kind: ShellKind)
    ensures
        kind == shell_kind_spec(shell@),
{
    let s = chars_of(shell);
    let zsh = chars_of("zsh");
    let bash = chars_of("bash");
    if contains_chars(&s, &zsh) {
        ShellKind::Zsh
    } else if contains_chars(&s, &bash) {
        ShellKind::Bash
    } else {
        ShellKind::Other
    }
}

/// The start-up file that is used where it exists.
pub open spec fn preferred_config_spec(kind: ShellKind, home: Seq<char>, zdotdir: Seq<char>) -> Seq<
    char,
> {
    match kind {
        ShellKind::Zsh => zdotdir + "/.zshenv"@,
        ShellKind::Bash => home + "/.bash_profile"@,
        ShellKind::Other => home + "/.profile"@,
    }
}

/// The start-up file that is used where the preferred one does not exist.
pub open spec fn fallback_config_spec(kind: ShellKind, home: Seq<char>, zdotdir: Seq<char>) -> Seq<
    char,
> {
    match kind {
        ShellKind::Zsh => zdotdir + "/.zshrc"@,
        ShellKind::Bash => home + "/.bashrc"@,
        ShellKind::Other => home + "/.profile"@,
    }
}

/// The start-up file of the shell that is used where it exists. `zdotdir`
/// is the directory of zsh's files, the home directory where none is set.
pub fn preferred_config(kind: ShellKind, home: &str, zdotdir: &str) -> (file: String)
    ensures
        file@ == preferred_config_spec(kind, home@, zdotdir@),
{
    match kind {
        ShellKind::Zsh => String::from_str(zdotdir).concat("/.zshenv"),
        ShellKind::Bash => String::from_str(home).concat("/.bash_profile"),
        ShellKind::Other => String::from_str(home).concat("/.profile"),
    }
}

/// The start-up file of the shell that is written to: the preferred one
/// where it exists, else the fallback.
pub fn config_file(kind: ShellKind, home: &str, zdotdir: &str, preferred_exists: bool) -> (file:
    String)
    ensures
        file@ == if preferred_exists {
            preferred_config_spec(kind, home@, zdotdir@)
        } else {
            fallback_config_spec(kind, home@, zdotdir@)
        },
{
    if preferred_exists {
        return preferred_config(kind, home, zdotdir);
    }
    match kind {
        ShellKind::Zsh => String::from_str(zdotdir).concat("/.zshrc"),
        ShellKind::Bash => String::from_str(home).concat("/.bashrc"),
        ShellKind::Other => String::from_str(home).concat("/.profile"),
    }
}

/// The line that puts `bin_path` at the front of the search path.
pub open spec fn path_export_spec(bin_path: Seq<char>) -> Seq<char> {
    "export PATH=\""@ + bin_path + ":$PATH\""@
}

/// The line that puts `bin_path` at the front of the search path.
pub fn path_export(bin_path: &str) -> (line: String)
    ensures
        line@ == path_export_spec(bin_path@),
{
    String::from_str("export PATH=\"").concat(bin_path).concat(":$PATH\"")
}

/// What is appended to the start-up file: a blank line, a marker comment and
/// the export line.
pub fn path_addition(bin_path: &str) -> (text: String)
    ensures
        text@ == "\n# zerobrew\n"@ + path_export_spec(bin_path@) + "\n"@,
{
    let line = path_export(bin_path);
    String::from_str("\n# zerobrew\n").concat(line.as_str()).concat("\n")
}

/// Whether the start-up file still lacks `bin_path`: it could not be read,
/// or `bin_path` occurs nowhere in it.
pub fn needs_path_entry(contents: Option<&str>, bin_path: &str) -> (b: bool)
    ensures
        b == match contents {
            Some(text) => !contains_run(text@, bin_path@),
            None => true,
        },
{
    match contents {
        Some(text) => {
            let t = chars_of(text);
            let b = chars_of(bin_path);
            !contains_chars(&t, &b)
        },
        None => true,
    }
}

/// Whether an answer to "Initialize now? [Y/n]" is a yes: nothing, `y` or
/// `yes`, in any case and with any white space around it.
pub open spec fn is_yes_or_empty(input: Seq<char>) -> bool {
    let answer = trim(input);
    answer.len() == 0 || eq_ignore_ascii_case(answer, "y"@) || eq_ignore_ascii_case(answer, "yes"@)
}

/// Accepts the answer to "Initialize now? [Y/n]", or reports that the store
/// has to be set up first.
pub fn confirm_init(input: &str) -> (res: Result<(), Error>)
    ensures
        is_yes_or_empty(input@) ==> res is Ok,
        !is_yes_or_empty(input@) ==> res is Err && res->Err_0.is_store_corruption(init_required()),
{
    let chars = chars_of(input);
    let n = chars.len();
    assert(chars@.subrange(0, n as int) =~= chars@);
    let (from, to) = trim_range(&chars, 0, n);
    let y = chars_of("y");
    let yes = chars_of("yes");
    if from == to || range_eq_ignore_case(&chars, from, to, &y) || range_eq_ignore_case(
        &chars,
        from,
        to,
        &yes,
    ) {
        return Ok(());
    }
    Err(
        Error::StoreCorruption {
            message: String::from_str("Initialization required. Run 'zb init' first."),
        },
    )
}

/// What is done about the bootstrap before a command runs.
#[derive(Debug, PartialEq, Eq)]
pub enum InitDecision {
    /// Root and prefix are ready: nothing is done.
    Ready,
    /// The user is asked whether to initialize now.
    Ask,
    /// The bootstrap runs.
    Initialize,
    /// The user said no: the command fails.
    Declined(Error),
}

impl InitDecision {
    /// Whether the decision is to fail with the error that the store has to
    /// be set up first.
    pub open spec fn is_declined(self) -> bool {
        self matches InitDecision::Declined(e) && e.is_store_corruption(init_required())
    }
}

/// What is done about the bootstrap before a command runs. Where nothing
/// has to be set up, nothing is done. Where the settings say so, the
/// bootstrap runs without a question. Else the user is asked, and once
/// there is an answer, it decides.
pub fn decide_init(needs: bool, auto_init: bool, answer: Option<&str>) -> (decision: InitDecision)
    ensures
        !needs ==> decision is Ready,
        needs && auto_init ==> decision is Initialize,
        needs && !auto_init && answer is None ==> decision is Ask,
        needs && !auto_init && answer is Some && is_yes_or_empty(answer->0@) ==> decision
            is Initialize,
        needs && !auto_init && answer is Some && !is_yes_or_empty(answer->0@)
            ==> decision.is_declined(),
{
    if !needs {
        return InitDecision::Ready;
    }
    if auto_init {
        return InitDecision::Initialize;
    }
    match answer {
        None => InitDecision::Ask,
        Some(input) => match confirm_init(input) {
            Ok(()) => InitDecision::Initialize,
            Err(e) => InitDecision::Declined(e),
        },
    }
}

/// Whether an answer to "Continue? [y/N]" is a yes: `y`, in either case and
/// with any white space around it.
pub fn confirm_reset(input: &str) -> (yes: bool)
    ensures
        yes == eq_ignore_ascii_case(trim(input@), "y"@),
{
    let chars = chars_of(input);
    let n = chars.len();
    assert(chars@.subrange(0, n as int) =~= chars@);
    let (from, to) = trim_range(&chars, 0, n);
    let y = chars_of("y");
    range_eq_ignore_case(&chars, from, to, &y)
}

} // verus!
